//! How key presses are assigned to contexts: the `bind` lines of the configuration.
use super::config_error::{BindParseError, ConfigParseError};
use crate::context::{context, context_of, ContextKind, ContextKindView};
use crate::keys::{KeyCode, KeyEvent, KeyModifiers};
use crate::text::{
    chars_eq, chars_of, lines, lines_of, split_chars, split_on, starts_with, starts_with_chars,
    string_of, subslice, trim, trim_chars,
};
use vstd::prelude::*;

verus! {

/// Whether `c` is an ASCII graphic character (`!` to `~`).
pub open spec fn is_ascii_graphic(c: char) -> bool {
    0x21 <= (c as u32) <= 0x7e
}

/// `c` in uppercase, if it is an ASCII lowercase letter; `c` otherwise.
pub open spec fn ascii_upper(c: char) -> char {
    if 'a' <= c <= 'z' {
        ((c as u32) - 32) as char
    } else {
        c
    }
}

fn to_ascii_upper(c: char) -> (r: char)
    ensures
        r == ascii_upper(c),
{
    if 'a' <= c && c <= 'z' {
        ((c as u32) - 32) as u8 as char
    } else {
        c
    }
}

/// The key named `name` among the special keys: `BS`, `CR`, `Enter`, the arrow keys,
/// `Home`, `End`, `PageUp`, `PageDown`, `Tab`, `Del`, `Ins`, `Space`, `Esc`, and `F1` to `F12`.
pub open spec fn unprintable_code(name: Seq<char>) -> Option<KeyCode> {
    if name == "BS"@ {
        Some(KeyCode::Backspace)
    } else if name == "CR"@ {
        Some(KeyCode::Enter)
    } else if name == "Enter"@ {
        Some(KeyCode::Enter)
    } else if name == "Left"@ {
        Some(KeyCode::Left)
    } else if name == "Right"@ {
        Some(KeyCode::Right)
    } else if name == "Up"@ {
        Some(KeyCode::Up)
    } else if name == "Down"@ {
        Some(KeyCode::Down)
    } else if name == "Home"@ {
        Some(KeyCode::Home)
    } else if name == "End"@ {
        Some(KeyCode::End)
    } else if name == "PageUp"@ {
        Some(KeyCode::PageUp)
    } else if name == "PageDown"@ {
        Some(KeyCode::PageDown)
    } else if name == "Tab"@ {
        Some(KeyCode::Tab)
    } else if name == "Del"@ {
        Some(KeyCode::Delete)
    } else if name == "Ins"@ {
        Some(KeyCode::Insert)
    } else if name == "Space"@ {
        Some(KeyCode::Char(' '))
    } else if name == "Esc"@ {
        Some(KeyCode::Esc)
    } else if name == "F1"@ {
        Some(KeyCode::F(1))
    } else if name == "F2"@ {
        Some(KeyCode::F(2))
    } else if name == "F3"@ {
        Some(KeyCode::F(3))
    } else if name == "F4"@ {
        Some(KeyCode::F(4))
    } else if name == "F5"@ {
        Some(KeyCode::F(5))
    } else if name == "F6"@ {
        Some(KeyCode::F(6))
    } else if name == "F7"@ {
        Some(KeyCode::F(7))
    } else if name == "F8"@ {
        Some(KeyCode::F(8))
    } else if name == "F9"@ {
        Some(KeyCode::F(9))
    } else if name == "F10"@ {
        Some(KeyCode::F(10))
    } else if name == "F11"@ {
        Some(KeyCode::F(11))
    } else if name == "F12"@ {
        Some(KeyCode::F(12))
    } else {
        None
    }
}

fn unprintable(name: &[char]) -> (r: Option<KeyCode>)
    ensures
        r == unprintable_code(name@),
{
    if chars_eq(name, chars_of("BS").as_slice()) {
        Some(KeyCode::Backspace)
    } else if chars_eq(name, chars_of("CR").as_slice()) {
        Some(KeyCode::Enter)
    } else if chars_eq(name, chars_of("Enter").as_slice()) {
        Some(KeyCode::Enter)
    } else if chars_eq(name, chars_of("Left").as_slice()) {
        Some(KeyCode::Left)
    } else if chars_eq(name, chars_of("Right").as_slice()) {
        Some(KeyCode::Right)
    } else if chars_eq(name, chars_of("Up").as_slice()) {
        Some(KeyCode::Up)
    } else if chars_eq(name, chars_of("Down").as_slice()) {
        Some(KeyCode::Down)
    } else if chars_eq(name, chars_of("Home").as_slice()) {
        Some(KeyCode::Home)
    } else if chars_eq(name, chars_of("End").as_slice()) {
        Some(KeyCode::End)
    } else if chars_eq(name, chars_of("PageUp").as_slice()) {
        Some(KeyCode::PageUp)
    } else if chars_eq(name, chars_of("PageDown").as_slice()) {
        Some(KeyCode::PageDown)
    } else if chars_eq(name, chars_of("Tab").as_slice()) {
        Some(KeyCode::Tab)
    } else if chars_eq(name, chars_of("Del").as_slice()) {
        Some(KeyCode::Delete)
    } else if chars_eq(name, chars_of("Ins").as_slice()) {
        Some(KeyCode::Insert)
    } else if chars_eq(name, chars_of("Space").as_slice()) {
        Some(KeyCode::Char(' '))
    } else if chars_eq(name, chars_of("Esc").as_slice()) {
        Some(KeyCode::Esc)
    } else if chars_eq(name, chars_of("F1").as_slice()) {
        Some(KeyCode::F(1))
    } else if chars_eq(name, chars_of("F2").as_slice()) {
        Some(KeyCode::F(2))
    } else if chars_eq(name, chars_of("F3").as_slice()) {
        Some(KeyCode::F(3))
    } else if chars_eq(name, chars_of("F4").as_slice()) {
        Some(KeyCode::F(4))
    } else if chars_eq(name, chars_of("F5").as_slice()) {
        Some(KeyCode::F(5))
    } else if chars_eq(name, chars_of("F6").as_slice()) {
        Some(KeyCode::F(6))
    } else if chars_eq(name, chars_of("F7").as_slice()) {
        Some(KeyCode::F(7))
    } else if chars_eq(name, chars_of("F8").as_slice()) {
        Some(KeyCode::F(8))
    } else if chars_eq(name, chars_of("F9").as_slice()) {
        Some(KeyCode::F(9))
    } else if chars_eq(name, chars_of("F10").as_slice()) {
        Some(KeyCode::F(10))
    } else if chars_eq(name, chars_of("F11").as_slice()) {
        Some(KeyCode::F(11))
    } else if chars_eq(name, chars_of("F12").as_slice()) {
        Some(KeyCode::F(12))
    } else {
        None
    }
}

/// The key press that a key representation names: a single ASCII graphic character (taken in
/// uppercase), or a special key in angle brackets (`<Tab>`), with no modifier.
pub open spec fn query_spec(rep: Seq<char>) -> Option<KeyEvent> {
    if rep.len() == 0 {
        None
    } else if rep.len() == 1 && is_ascii_graphic(rep[0]) {
        Some(KeyEvent { code: KeyCode::Char(ascii_upper(rep[0])), modifiers: KeyModifiers::NONE })
    } else if rep.len() > 2 && rep[0] == '<' && rep.last() == '>' && unprintable_code(
        rep.subrange(1, rep.len() - 1),
    ) is Some {
        Some(
            KeyEvent {
                code: unprintable_code(rep.subrange(1, rep.len() - 1))->0,
                modifiers: KeyModifiers::NONE,
            },
        )
    } else {
        None
    }
}

/// The key code that a key name denotes: a single ASCII graphic character (taken in
/// uppercase), or the name of a special key (`Tab`).
pub open spec fn query_code_spec(rep: Seq<char>) -> Option<KeyCode> {
    if rep.len() == 0 {
        None
    } else if rep.len() == 1 && is_ascii_graphic(rep[0]) {
        Some(KeyCode::Char(ascii_upper(rep[0])))
    } else {
        unprintable_code(rep)
    }
}

/// The table of key names.
pub struct ConfigMap;

impl ConfigMap {
    /// The table of key names.
    pub fn new() -> (m: Self) {
        ConfigMap
    }

    /// The key press that `rep` represents, with no modifier: `A`, `a` or `<Tab>`.
    pub fn query(&self, rep: &str) -> (r: Option<KeyEvent>)
        ensures
            r == query_spec(rep@),
    {
        let v = chars_of(rep);
        self.query_chars(v.as_slice())
    }

    fn query_chars(&self, v: &[char]) -> (r: Option<KeyEvent>)
        ensures
            r == query_spec(v@),
    {
        let n = v.len();
        if n == 0 {
            return None;
        }
        let head = v[0];
        if n == 1 && 0x21 <= (head as u32) && (head as u32) <= 0x7e {
            Some(KeyEvent::new(KeyCode::Char(to_ascii_upper(head)), KeyModifiers::NONE))
        } else if n > 2 && head == '<' && v[n - 1] == '>' {
            let middle = subslice(v, 1, n - 1);
            match unprintable(middle.as_slice()) {
                Some(code) => Some(KeyEvent::new(code, KeyModifiers::NONE)),
                None => None,
            }
        } else {
            None
        }
    }

    /// The key code that the key name `rep` denotes: `A`, `a` or `Tab`.
    pub fn query_code(&self, rep: &str) -> (r: Option<KeyCode>)
        ensures
            r == query_code_spec(rep@),
    {
        let v = chars_of(rep);
        self.query_code_chars(v.as_slice())
    }

    fn query_code_chars(&self, v: &[char]) -> (r: Option<KeyCode>)
        ensures
            r == query_code_spec(v@),
    {
        let n = v.len();
        if n == 0 {
            return None;
        }
        let head = v[0];
        if n == 1 && 0x21 <= (head as u32) && (head as u32) <= 0x7e {
            Some(KeyCode::Char(to_ascii_upper(head)))
        } else {
            unprintable(v)
        }
    }
}

/// The states of the automaton that reads a modifier string.
#[allow(non_camel_case_types)]
#[derive(Clone, Copy, PartialEq, Eq, Structural)]
pub enum State {
    /// Nothing read yet.
    Start,
    /// Read a Control modifier letter.
    C,
    /// Read an Alt modifier letter.
    A,
    /// Read a Shift modifier letter.
    S,
    /// Read `C-`.
    C_,
    /// Read `A-`.
    A_,
    /// Read `S-`.
    S_,
    /// Reading the key.
    Accept,
    /// The string is not a modifier string; what follows is read as a key name.
    Reject,
}

/// The classes of characters that the automaton tells apart.
#[derive(Clone, Copy, PartialEq, Eq, Structural)]
pub enum Transition {
    /// `C` or `c`.
    C,
    /// `A` or `a`.
    A,
    /// `S` or `s`.
    S,
    /// `-`.
    Hyphen,
    /// Any other character.
    Else,
}

/// The class of a character.
pub open spec fn transition_of(ch: char) -> Transition {
    if ch == 'C' || ch == 'c' {
        Transition::C
    } else if ch == 'A' || ch == 'a' {
        Transition::A
    } else if ch == 'S' || ch == 's' {
        Transition::S
    } else if ch == '-' {
        Transition::Hyphen
    } else {
        Transition::Else
    }
}

fn classify(ch: char) -> (t: Transition)
    ensures
        t == transition_of(ch),
{
    match ch {
        'C' | 'c' => Transition::C,
        'A' | 'a' => Transition::A,
        'S' | 's' => Transition::S,
        '-' => Transition::Hyphen,
        _ => Transition::Else,
    }
}

/// The automaton's transition table: the state after reading a character of class `t` in
/// state `s`. Modifiers may come in the orders `C-`, `C-A-`, `C-S-`, `C-S-A-`, `A-`, `S-` and
/// `S-A-`.
pub open spec fn next_state(t: Transition, s: State) -> State {
    match s {
        State::Start => match t {
            Transition::C => State::C,
            Transition::A => State::A,
            Transition::S => State::S,
            _ => State::Reject,
        },
        State::C => match t {
            Transition::Hyphen => State::C_,
            _ => State::Reject,
        },
        State::A => match t {
            Transition::Hyphen => State::A_,
            _ => State::Reject,
        },
        State::S => match t {
            Transition::Hyphen => State::S_,
            _ => State::Reject,
        },
        State::C_ => match t {
            Transition::A => State::A,
            Transition::S => State::S,
            _ => State::Accept,
        },
        State::A_ => State::Accept,
        State::S_ => match t {
            Transition::A => State::A,
            _ => State::Accept,
        },
        State::Accept => State::Accept,
        State::Reject => State::Reject,
    }
}

fn step_state(t: Transition, s: State) -> (r: State)
    ensures
        r == next_state(t, s),
{
    match s {
        State::Start => match t {
            Transition::C => State::C,
            Transition::A => State::A,
            Transition::S => State::S,
            _ => State::Reject,
        },
        State::C => match t {
            Transition::Hyphen => State::C_,
            _ => State::Reject,
        },
        State::A => match t {
            Transition::Hyphen => State::A_,
            _ => State::Reject,
        },
        State::S => match t {
            Transition::Hyphen => State::S_,
            _ => State::Reject,
        },
        State::C_ => match t {
            Transition::A => State::A,
            Transition::S => State::S,
            _ => State::Accept,
        },
        State::A_ => State::Accept,
        State::S_ => match t {
            Transition::A => State::A,
            _ => State::Accept,
        },
        State::Accept => State::Accept,
        State::Reject => State::Reject,
    }
}

/// The number of bytes of the UTF-8 encoding of `c`.
pub open spec fn utf8_len(c: char) -> int {
    let u = c as u32;
    if u < 0x80 {
        1
    } else if u < 0x800 {
        2
    } else if u < 0x10000 {
        3
    } else {
        4
    }
}

/// What the automaton has gathered after reading part of a modifier string: its state, the
/// key name read so far and its length in bytes, the modifiers, and whether the key name
/// grew past 8 bytes.
pub struct Scan {
    /// The automaton's state.
    pub state: State,
    /// The key name read so far.
    pub key: Seq<char>,
    /// The length of the key name in bytes.
    pub key_bytes: int,
    /// Shift was given.
    pub shift: bool,
    /// Control was given.
    pub control: bool,
    /// Alt was given.
    pub alt: bool,
    /// The key name grew too long.
    pub overflow: bool,
    /// The modifier letter last read: it is a modifier only if a `-` follows, else it starts
    /// the key name.
    pub held: char,
}

/// Whether `s` is a state that has just read a modifier letter.
pub open spec fn is_letter_state(s: State) -> bool {
    s == State::C || s == State::A || s == State::S
}

/// Reads the character `ch`. A modifier letter counts as a modifier once a `-` follows it;
/// otherwise (as the `S` of `<C-Space>`) it is the first character of the key name.
pub open spec fn scan_step(sc: Scan, ch: char) -> Scan {
    if sc.overflow {
        sc
    } else {
        let st = next_state(transition_of(ch), sc.state);
        let keeps = st == State::Accept || st == State::Reject;
        let letter = keeps && is_letter_state(sc.state);
        if keeps && sc.key_bytes == 8 {
            Scan { overflow: true, ..sc }
        } else {
            Scan {
                state: st,
                key: if letter {
                    sc.key.push(sc.held).push(ch)
                } else if keeps {
                    sc.key.push(ch)
                } else {
                    sc.key
                },
                key_bytes: if letter {
                    sc.key_bytes + utf8_len(sc.held) + utf8_len(ch)
                } else if keeps {
                    sc.key_bytes + utf8_len(ch)
                } else {
                    sc.key_bytes
                },
                shift: (sc.shift && !(letter && sc.state == State::S)) || st == State::S,
                control: (sc.control && !(letter && sc.state == State::C)) || st == State::C,
                alt: (sc.alt && !(letter && sc.state == State::A)) || st == State::A,
                overflow: false,
                held: if is_letter_state(st) {
                    ch
                } else {
                    sc.held
                },
            }
        }
    }
}

/// The automaton after reading `s`.
pub open spec fn scan(s: Seq<char>) -> Scan
    decreases s.len(),
{
    if s.len() == 0 {
        Scan {
            state: State::Start,
            key: seq![],
            key_bytes: 0,
            shift: false,
            control: false,
            alt: false,
            overflow: false,
            held: ' ',
        }
    } else {
        scan_step(scan(s.drop_last()), s.last())
    }
}

/// The key press that the automaton read: a modifier letter at the very end is the key
/// itself (`<C-S>` is Control + S), and the key name must name a key.
pub open spec fn finish(sc: Scan) -> Option<KeyEvent> {
    if sc.overflow {
        None
    } else {
        let (key, shift, control, alt) = match sc.state {
            State::C => (sc.key.push('C'), sc.shift, false, sc.alt),
            State::A => (sc.key.push('A'), sc.shift, sc.control, false),
            State::S => (sc.key.push('S'), false, sc.control, sc.alt),
            _ => (sc.key, sc.shift, sc.control, sc.alt),
        };
        if sc.state == State::Start || sc.state == State::C_ || sc.state == State::A_ || sc.state
            == State::S_ {
            None
        } else {
            match query_code_spec(key) {
                Some(code) => Some(
                    KeyEvent {
                        code,
                        modifiers: modifiers_of(shift, control, alt),
                    },
                ),
                None => None,
            }
        }
    }
}

/// The set of modifiers with the given flags.
pub open spec fn modifiers_of(shift: bool, control: bool, alt: bool) -> KeyModifiers {
    choose|m: KeyModifiers| m.has_shift() == shift && m.has_control() == control && m.has_alt() == alt
}

/// The key press that the key event term `s` denotes: a key representation (`A`, `<Tab>`),
/// or a modifier string (`<C-S-A-Del>`); `None` when it is malformed.
pub open spec fn parse_key_event_spec(s: Seq<char>) -> Option<KeyEvent> {
    if query_spec(s) is Some {
        query_spec(s)
    } else if !(s.len() > 0 && s[0] == '<' && s.last() == '>') {
        None
    } else {
        finish(scan(s.subrange(1, s.len() - 1)))
    }
}

fn utf8_len_of(c: char) -> (n: usize)
    ensures
        n == utf8_len(c),
{
    let u = c as u32;
    if u < 0x80 {
        1
    } else if u < 0x800 {
        2
    } else if u < 0x10000 {
        3
    } else {
        4
    }
}

proof fn lemma_modifiers_of(m: KeyModifiers, shift: bool, control: bool, alt: bool)
    requires
        m.has_shift() == shift,
        m.has_control() == control,
        m.has_alt() == alt,
    ensures
        modifiers_of(shift, control, alt) == m,
{
    let c = modifiers_of(shift, control, alt);
    assert(m.has_shift() == shift && m.has_control() == control && m.has_alt() == alt);
    KeyModifiers::lemma_flags_determine(c, m);
}

/// Whether `b` is a well-formed bind term: `bind(<context>)`.
pub open spec fn bind_term_ok(b: Seq<char>) -> bool {
    b.len() >= 6 && starts_with(b, "bind("@) && b.last() == ')'
}

/// The pieces `ps`, each preceded by a space (how the arguments of a bind line are joined).
pub open spec fn join_args(ps: Seq<Seq<char>>) -> Seq<char>
    decreases ps.len(),
{
    if ps.len() == 0 {
        seq![]
    } else {
        join_args(ps.drop_last()) + seq![' '] + ps.last()
    }
}

/// The arguments of a bind line whose space-separated terms are `ps`: the terms after the
/// third, joined by spaces and trimmed.
pub open spec fn line_args(ps: Seq<Seq<char>>) -> Seq<char> {
    trim(join_args(ps.skip(3)))
}

/// What a bind line binds: the context the bind applies to, the key press, and the context
/// that the key press starts; `None` when the line is not a valid bind line.
pub open spec fn parse_line_view(line: Seq<char>) -> Option<(Seq<char>, KeyEvent, ContextKindView)> {
    let ps = split_on(line, ' ');
    if ps.len() < 3 {
        None
    } else if !bind_term_ok(ps[0]) {
        None
    } else if parse_key_event_spec(ps[1]) is None {
        None
    } else if context_of(ps[2], line_args(ps)) is None {
        None
    } else {
        Some(
            (
                ps[0].subrange(5, ps[0].len() - 1),
                parse_key_event_spec(ps[1])->0,
                context_of(ps[2], line_args(ps))->0,
            ),
        )
    }
}

/// The error that the bind line `line`, on line `line_no`, gives, when it is not valid.
pub open spec fn bind_line_error(line: Seq<char>, line_no: u16, e: ConfigParseError) -> bool {
    let ps = split_on(line, ' ');
    let l = line_no as usize;
    if ps.len() < 3 {
        e == (ConfigParseError::BindParseError { error: BindParseError::NotEnoughTerms, line: l })
    } else if !bind_term_ok(ps[0]) {
        e == (ConfigParseError::BindParseError { error: BindParseError::MalformedBindTerm, line: l })
    } else if parse_key_event_spec(ps[1]) is None {
        e == malformed_key_event(line_no)
    } else {
        &&& e matches ConfigParseError::BindParseError {
            error: BindParseError::NoMatchingContext { context },
            line,
        }
        &&& context@ == ps[2]
        &&& line == l
    }
}

/// A key press as bind lines name it: a character key is taken in uppercase.
pub open spec fn normalized(key: KeyEvent) -> KeyEvent {
    KeyEvent {
        code: match key.code {
            KeyCode::Char(c) => KeyCode::Char(ascii_upper(c)),
            other => other,
        },
        modifiers: key.modifiers,
    }
}

/// Whether binding `i` of `bs` binds `key` in `ctx`.
pub open spec fn binds(
    bs: Seq<(Seq<char>, KeyEvent, ContextKindView)>,
    i: int,
    ctx: Seq<char>,
    key: KeyEvent,
) -> bool {
    bs[i].0 == ctx && bs[i].1 == key
}

proof fn lemma_scan_overflow_sticky(s: Seq<char>, i: int)
    requires
        0 <= i <= s.len(),
        scan(s.take(i)).overflow,
    ensures
        scan(s).overflow,
    decreases s.len() - i,
{
    if i < s.len() {
        assert(s.take(i + 1).drop_last() =~= s.take(i));
        lemma_scan_overflow_sticky(s, i + 1);
    } else {
        assert(s.take(i) =~= s);
    }
}

/// A binding of a key press, in a context, to the context it starts.
pub open spec fn binding_view(b: (String, KeyEvent, ContextKind)) -> (
    Seq<char>,
    KeyEvent,
    ContextKindView,
) {
    (b.0@, b.1, b.2@)
}

/// Struct that represents key press to context mapping.
///
/// The bindings are kept in line order and a query answers with the first that fits: of
/// several bindings of one key in one context, the first is the one in force, and later ones
/// are never used.
pub struct Config {
    map: Vec<(String, KeyEvent, ContextKind)>,
}

/// The error for a malformed key event term on line `line_no`.
pub open spec fn malformed_key_event(line_no: u16) -> ConfigParseError {
    ConfigParseError::BindParseError {
        error: BindParseError::MalformedKeyEventTerm,
        line: line_no as usize,
    }
}

impl Config {
    /// The bindings, in the order of their lines; a query answers with the first that fits.
    pub closed spec fn bindings(self) -> Seq<(Seq<char>, KeyEvent, ContextKindView)> {
        self.map@.map_values(|b: (String, KeyEvent, ContextKind)| binding_view(b))
    }

    /// Create an empty Config.
    pub fn empty() -> (c: Config)
        ensures
            c.bindings() == Seq::<(Seq<char>, KeyEvent, ContextKindView)>::empty(),
    {
        let c = Config { map: Vec::new() };
        assert(c.bindings() =~= Seq::<(Seq<char>, KeyEvent, ContextKindView)>::empty());
        c
    }

    /// Appends a binding; queries answer with the first binding that fits.
    pub fn add_binding(&mut self, b: (String, KeyEvent, ContextKind))
        ensures
            final(self).bindings() == old(self).bindings().push(binding_view(b)),
    {
        let ghost v = binding_view(b);
        self.map.push(b);
        assert(self.bindings() =~= old(self).bindings().push(v));
    }

    /// Parses a key event term: a key representation (`A`, `<Tab>`) or a modifier string
    /// (`<C-S-A-Del>`). The error names the line `line_no`.
    pub fn parse_key_event(key_event: &str, line_no: u16) -> (r: Result<KeyEvent, ConfigParseError>)
        ensures
            match parse_key_event_spec(key_event@) {
                Some(e) => r == Ok::<KeyEvent, ConfigParseError>(e),
                None => r == Err::<KeyEvent, ConfigParseError>(malformed_key_event(line_no)),
            },
    {
        let v = chars_of(key_event);
        Self::parse_key_event_chars(v.as_slice(), line_no)
    }

    fn parse_key_event_chars(v: &[char], line_no: u16) -> (r: Result<KeyEvent, ConfigParseError>)
        ensures
            match parse_key_event_spec(v@) {
                Some(e) => r == Ok::<KeyEvent, ConfigParseError>(e),
                None => r == Err::<KeyEvent, ConfigParseError>(malformed_key_event(line_no)),
            },
    {
        let map = ConfigMap::new();
        if let Some(key) = map.query_chars(v) {
            return Ok(key);
        }
        let n = v.len();
        if n == 0 || v[0] != '<' || v[n - 1] != '>' {
            return Err(ConfigParseError::bind(BindParseError::MalformedKeyEventTerm, line_no as usize));
        }
        let middle = subslice(v, 1, n - 1);
        let mut state = State::Start;
        let mut key: Vec<char> = Vec::new();
        let mut key_bytes: usize = 0;
        let ghost mut kb: int = 0;
        let mut shift = false;
        let mut control = false;
        let mut alt = false;
        let mut held = ' ';
        let mut i: usize = 0;
        assert(middle@.take(0) =~= Seq::<char>::empty());
        while i < middle.len()
            invariant
                i <= middle@.len(),
                query_spec(v@) is None,
                n == v@.len(),
                n > 0 && v@[0] == '<' && v@.last() == '>',
                middle@ == v@.subrange(1, n - 1),
                scan(middle@.take(i as int)) == (Scan {
                    state,
                    key: key@,
                    key_bytes: kb,
                    shift,
                    control,
                    alt,
                    overflow: false,
                    held,
                }),
                key_bytes == if kb < 9 {
                    kb
                } else {
                    9
                },
                kb >= 0,
            decreases middle@.len() - i,
        {
            let ch = middle[i];
            assert(middle@.take(i + 1).drop_last() =~= middle@.take(i as int));
            let prev = state;
            state = step_state(classify(ch), state);
            if state == State::Accept || state == State::Reject {
                if key_bytes == 8 {
                    proof {
                        assert(middle@.take(i + 1).last() == ch);
                        assert(kb == 8);
                        assert(scan(middle@.take(i + 1)).overflow);
                        lemma_scan_overflow_sticky(middle@, i + 1);
                    }
                    return Err(ConfigParseError::bind(BindParseError::MalformedKeyEventTerm, line_no as usize));
                }
                if prev == State::C || prev == State::A || prev == State::S {
                    key.push(held);
                    let hw = utf8_len_of(held);
                    key_bytes = if key_bytes + hw < 9 {
                        key_bytes + hw
                    } else {
                        9
                    };
                    proof {
                        kb = kb + hw;
                    }
                    match prev {
                        State::C => control = false,
                        State::A => alt = false,
                        _ => shift = false,
                    }
                }
                key.push(ch);
                let w = utf8_len_of(ch);
                key_bytes = if key_bytes + w < 9 {
                    key_bytes + w
                } else {
                    9
                };
                proof {
                    kb = kb + w;
                }
            }
            match state {
                State::C => {
                    control = true;
                    held = ch;
                },
                State::A => {
                    alt = true;
                    held = ch;
                },
                State::S => {
                    shift = true;
                    held = ch;
                },
                _ => {},
            }
            i += 1;
        }
        assert(middle@.take(middle@.len() as int) =~= middle@);
        match state {
            State::Start | State::C_ | State::A_ | State::S_ => {
                return Err(ConfigParseError::bind(BindParseError::MalformedKeyEventTerm, line_no as usize));
            },
            State::C => {
                key.push('C');
                control = false;
            },
            State::A => {
                key.push('A');
                alt = false;
            },
            State::S => {
                key.push('S');
                shift = false;
            },
            _ => {},
        }
        match map.query_code_chars(key.as_slice()) {
            Some(code) => {
                let modifiers = KeyModifiers::from_flags(shift, control, alt);
                proof {
                    lemma_modifiers_of(modifiers, shift, control, alt);
                }
                Ok(KeyEvent::new(code, modifiers))
            },
            None => Err(ConfigParseError::bind(BindParseError::MalformedKeyEventTerm, line_no as usize)),
        }
    }

    /// Parses a bind line: `bind(<context>) <key event> <new context> <arguments...>`.
    /// Errors name the line `line_no`.
    pub fn parse_line(line: &str, line_no: u16) -> (r: Result<(String, KeyEvent, ContextKind), ConfigParseError>)
        ensures
            r is Ok <==> parse_line_view(line@) is Some,
            r matches Ok(t) ==> parse_line_view(line@) == Some(binding_view(t)),
            r matches Err(e) ==> bind_line_error(line@, line_no, e),
    {
        let v = chars_of(line);
        let pieces = split_chars(v.as_slice(), ' ');
        let ghost ps = split_on(v@, ' ');
        assert(pieces@.len() == ps.len());
        if pieces.len() < 3 {
            return Err(ConfigParseError::bind(BindParseError::NotEnoughTerms, line_no as usize));
        }
        assert(pieces@[0]@ == ps[0] && pieces@[1]@ == ps[1] && pieces@[2]@ == ps[2]);
        let bind = &pieces[0];
        let key_event = &pieces[1];
        let new_context = &pieces[2];
        let prefix = chars_of("bind(");
        let bl = bind.len();
        if bl < 6 || !starts_with_chars(bind.as_slice(), prefix.as_slice()) || bind[bl - 1] != ')' {
            return Err(ConfigParseError::bind(BindParseError::MalformedBindTerm, line_no as usize));
        }
        let old_context = subslice(bind.as_slice(), 5, bl - 1);
        let key_event = match Self::parse_key_event_chars(key_event.as_slice(), line_no) {
            Ok(e) => e,
            Err(e) => return Err(e),
        };
        let mut joined: Vec<char> = Vec::new();
        let mut i: usize = 3;
        assert(ps.skip(3).take(0) =~= Seq::<Seq<char>>::empty());
        while i < pieces.len()
            invariant
                3 <= i <= pieces@.len(),
                pieces@.len() == ps.len(),
                forall|k: int| 0 <= k < ps.len() ==> #[trigger] pieces@[k]@ == ps[k],
                joined@ == join_args(ps.skip(3).take(i - 3)),
            decreases pieces@.len() - i,
        {
            let ghost before = joined@;
            joined.push(' ');
            let piece = &pieces[i];
            let mut j: usize = 0;
            while j < piece.len()
                invariant
                    j <= piece@.len(),
                    joined@ == before + seq![' '] + piece@.take(j as int),
                decreases piece@.len() - j,
            {
                joined.push(piece[j]);
                assert(piece@.take(j + 1) =~= piece@.take(j as int).push(piece@[j as int]));
                j += 1;
            }
            proof {
                let t = ps.skip(3).take(i + 1 - 3);
                assert(t.drop_last() =~= ps.skip(3).take(i - 3));
                assert(t.last() == ps[i as int]);
                assert(piece@.take(piece@.len() as int) =~= piece@);
            }
            i += 1;
        }
        assert(ps.skip(3).take(ps.len() - 3) =~= ps.skip(3));
        let args = string_of(trim_chars(joined.as_slice()).as_slice());
        let name = string_of(new_context.as_slice());
        match context(name.as_str(), args) {
            Some(kind) => {
                let ctx = string_of(old_context.as_slice());
                Ok((ctx, key_event, kind))
            },
            None => Err(
                ConfigParseError::bind(BindParseError::NoMatchingContext { context: name }, line_no as usize),
            ),
        }
    }

    /// Create a Config from a string representing the text of the configuration: one bind
    /// line per line, numbered from 0.
    pub fn new(text: &str) -> (r: Result<Config, ConfigParseError>)
        requires
            lines_of(text@).len() <= u16::MAX + 1,
        ensures
            ({
                let ls = lines_of(text@);
                &&& r is Ok <==> (forall|i: int| 0 <= i < ls.len() ==> #[trigger] parse_line_view(ls[i]) is Some)
                &&& r matches Ok(c) ==> c.bindings() == Seq::new(
                    ls.len(),
                    |i: int| parse_line_view(ls[i])->0,
                )
                &&& r matches Err(e) ==> exists|i: int|
                    0 <= i < ls.len() && #[trigger] parse_line_view(ls[i]) is None && bind_line_error(
                        ls[i],
                        i as u16,
                        e,
                    )
            }),
    {
        let v = chars_of(text);
        let ls = lines(v.as_slice());
        let ghost lv = lines_of(text@);
        let mut map: Vec<(String, KeyEvent, ContextKind)> = Vec::new();
        let mut i: usize = 0;
        while i < ls.len()
            invariant
                i <= ls@.len(),
                lv == lines_of(text@),
                ls@.len() == lv.len(),
                lv.len() <= u16::MAX + 1,
                forall|k: int| 0 <= k < lv.len() ==> #[trigger] ls@[k]@ == lv[k],
                forall|k: int| 0 <= k < i ==> #[trigger] parse_line_view(lv[k]) is Some,
                map@.len() == i,
                forall|k: int|
                    0 <= k < i ==> Some(binding_view(#[trigger] map@[k])) == parse_line_view(lv[k]),
            decreases ls@.len() - i,
        {
            assert(ls@[i as int]@ == lv[i as int]);
            let line = string_of(ls[i].as_slice());
            match Self::parse_line(line.as_str(), i as u16) {
                Ok(t) => {
                    map.push(t);
                },
                Err(e) => {
                    assert(parse_line_view(lv[i as int]) is None);
                    assert(bind_line_error(lv[i as int], i as u16, e));
                    assert(exists|k: int|
                        0 <= k < lv.len() && #[trigger] parse_line_view(lv[k]) is None
                            && bind_line_error(lv[k], k as u16, e));
                    return Err(e);
                },
            }
            i += 1;
        }
        let c = Config { map };
        assert(c.bindings() =~= Seq::new(lv.len(), |i: int| parse_line_view(lv[i])->0));
        Ok(c)
    }

    /// Query the configuration for the context that `key` starts in the context named
    /// `context`: the first binding that fits, where a character key is taken in uppercase.
    pub fn query(&self, context: &str, key: KeyEvent) -> (r: Option<&ContextKind>)
        ensures
            ({
                let bs = self.bindings();
                let k = normalized(key);
                &&& r is None <==> (forall|i: int| 0 <= i < bs.len() ==> !#[trigger] binds(bs, i, context@, k))
                &&& r matches Some(kind) ==> exists|i: int|
                    0 <= i < bs.len() && #[trigger] binds(bs, i, context@, k) && (forall|j: int|
                        0 <= j < i ==> !binds(bs, j, context@, k)) && kind@ == bs[i].2
            }),
    {
        let code = match key.code {
            KeyCode::Char(c) => KeyCode::Char(to_ascii_upper(c)),
            other => other,
        };
        let nkey = KeyEvent::new(code, key.modifiers);
        assert(nkey == normalized(key));
        let name = chars_of(context);
        let ghost bs = self.bindings();
        let mut i: usize = 0;
        while i < self.map.len()
            invariant
                i <= self.map@.len(),
                bs == self.bindings(),
                bs.len() == self.map@.len(),
                name@ == context@,
                nkey == normalized(key),
                forall|j: int| 0 <= j < i ==> !#[trigger] binds(bs, j, context@, nkey),
            decreases self.map@.len() - i,
        {
            let b = &self.map[i];
            assert(bs[i as int] == binding_view(self.map@[i as int]));
            let ctx = chars_of(b.0.as_str());
            if chars_eq(ctx.as_slice(), name.as_slice()) && b.1 == nkey {
                assert(binds(bs, i as int, context@, normalized(key)));
                assert(b.2@ == bs[i as int].2);
                return Some(&b.2);
            }
            i += 1;
        }
        None
    }
}

/// Every special key name is two to eight ASCII characters long, with no `-` second.
proof fn lemma_special_name_shape(name: Seq<char>)
    requires
        unprintable_code(name) is Some,
    ensures
        2 <= name.len() <= 8,
        forall|i: int| 0 <= i < name.len() ==> (#[trigger] name[i] as u32) < 0x80,
        name[1] != '-',
{
    reveal_strlit("BS");
    reveal_strlit("CR");
    reveal_strlit("Enter");
    reveal_strlit("Left");
    reveal_strlit("Right");
    reveal_strlit("Up");
    reveal_strlit("Down");
    reveal_strlit("Home");
    reveal_strlit("End");
    reveal_strlit("PageUp");
    reveal_strlit("PageDown");
    reveal_strlit("Tab");
    reveal_strlit("Del");
    reveal_strlit("Ins");
    reveal_strlit("Space");
    reveal_strlit("Esc");
    reveal_strlit("F1");
    reveal_strlit("F2");
    reveal_strlit("F3");
    reveal_strlit("F4");
    reveal_strlit("F5");
    reveal_strlit("F6");
    reveal_strlit("F7");
    reveal_strlit("F8");
    reveal_strlit("F9");
    reveal_strlit("F10");
    reveal_strlit("F11");
    reveal_strlit("F12");
}

/// Reading one more character: the automaton after `p` followed by `ch`.
proof fn lemma_scan_push(p: Seq<char>, ch: char)
    ensures
        scan(p.push(ch)) == scan_step(scan(p), ch),
{
    assert(p.push(ch).drop_last() =~= p);
}

/// Whether `sc` has just read a modifier and its `-`, gathered no key name, and holds the
/// modifiers `(shift, control, alt)`.
pub open spec fn after_modifiers(sc: Scan, shift: bool, control: bool, alt: bool) -> bool {
    &&& (sc.state == State::C_ || sc.state == State::A_ || sc.state == State::S_)
    &&& sc.key == Seq::<char>::empty()
    &&& sc.key_bytes == 0
    &&& !sc.overflow
    &&& sc.shift == shift
    &&& sc.control == control
    &&& sc.alt == alt
}

/// The automaton on the modifier strings that the key event terms allow, in their orders.
proof fn lemma_modifier_prefixes()
    ensures
        after_modifiers(scan(seq!['C', '-']), false, true, false),
        after_modifiers(scan(seq!['A', '-']), false, false, true),
        after_modifiers(scan(seq!['S', '-']), true, false, false),
        after_modifiers(scan(seq!['C', '-', 'A', '-']), false, true, true),
        after_modifiers(scan(seq!['C', '-', 'S', '-']), true, true, false),
        after_modifiers(scan(seq!['S', '-', 'A', '-']), true, false, true),
        after_modifiers(scan(seq!['C', '-', 'S', '-', 'A', '-']), true, true, true),
{
    let e = Seq::<char>::empty();
    lemma_scan_push(e, 'C');
    lemma_scan_push(e, 'A');
    lemma_scan_push(e, 'S');
    assert(e.push('C') =~= seq!['C']);
    assert(e.push('A') =~= seq!['A']);
    assert(e.push('S') =~= seq!['S']);
    lemma_scan_push(seq!['C'], '-');
    lemma_scan_push(seq!['A'], '-');
    lemma_scan_push(seq!['S'], '-');
    assert(seq!['C'].push('-') =~= seq!['C', '-']);
    assert(seq!['A'].push('-') =~= seq!['A', '-']);
    assert(seq!['S'].push('-') =~= seq!['S', '-']);
    lemma_scan_push(seq!['C', '-'], 'A');
    lemma_scan_push(seq!['C', '-'], 'S');
    lemma_scan_push(seq!['S', '-'], 'A');
    assert(seq!['C', '-'].push('A') =~= seq!['C', '-', 'A']);
    assert(seq!['C', '-'].push('S') =~= seq!['C', '-', 'S']);
    assert(seq!['S', '-'].push('A') =~= seq!['S', '-', 'A']);
    lemma_scan_push(seq!['C', '-', 'A'], '-');
    lemma_scan_push(seq!['C', '-', 'S'], '-');
    lemma_scan_push(seq!['S', '-', 'A'], '-');
    assert(seq!['C', '-', 'A'].push('-') =~= seq!['C', '-', 'A', '-']);
    assert(seq!['C', '-', 'S'].push('-') =~= seq!['C', '-', 'S', '-']);
    assert(seq!['S', '-', 'A'].push('-') =~= seq!['S', '-', 'A', '-']);
    lemma_scan_push(seq!['C', '-', 'S', '-'], 'A');
    assert(seq!['C', '-', 'S', '-'].push('A') =~= seq!['C', '-', 'S', '-', 'A']);
    lemma_scan_push(seq!['C', '-', 'S', '-', 'A'], '-');
    assert(seq!['C', '-', 'S', '-', 'A'].push('-') =~= seq!['C', '-', 'S', '-', 'A', '-']);
}

/// After a modifier string `pre`, the automaton reads a key name `k` that does not begin with
/// a modifier letter: after the first `j` characters of `k` it is reading the key, has
/// gathered exactly those characters, and holds the modifiers of `pre`.
proof fn lemma_scan_key_name(pre: Seq<char>, k: Seq<char>, j: int, shift: bool, control: bool, alt: bool)
    requires
        after_modifiers(scan(pre), shift, control, alt),
        k.len() <= 8,
        k.len() > 0,
        forall|i: int| 0 <= i < k.len() ==> (#[trigger] k[i] as u32) < 0x80,
        transition_of(k[0]) is Else || transition_of(k[0]) is Hyphen,
        1 <= j <= k.len(),
    ensures
        ({
            let sc = scan(pre + k.take(j));
            &&& sc.state == State::Accept
            &&& sc.key == k.take(j)
            &&& sc.key_bytes == j
            &&& !sc.overflow
            &&& sc.shift == shift
            &&& sc.control == control
            &&& sc.alt == alt
        }),
    decreases j,
{
    assert((pre + k.take(j)).drop_last() =~= pre + k.take(j - 1));
    assert((pre + k.take(j)).last() == k[j - 1]);
    if j == 1 {
        assert(pre + k.take(0) =~= pre);
        assert(k.take(1) =~= seq![k[0]]);
        assert(Seq::<char>::empty().push(k[0]) =~= seq![k[0]]);
        assert((k[0] as u32) < 0x80);
    } else {
        lemma_scan_key_name(pre, k, j - 1, shift, control, alt);
        assert(k.take(j - 1).push(k[j - 1]) =~= k.take(j));
    }
}

/// A key event term with one modifier, `<C-k>`, `<A-k>` or `<S-k>`, denotes the key that the
/// key name `k` names with that modifier held, for every key name that does not begin with a
/// modifier letter (`x`, `Enter`, `Del`, `-`).
pub proof fn lemma_single_modifier_terms(k: Seq<char>)
    requires
        query_code_spec(k) is Some,
        !(k[0] == 'C' || k[0] == 'c' || k[0] == 'A' || k[0] == 'a' || k[0] == 'S' || k[0] == 's'),
    ensures
        parse_key_event_spec(seq!['<', 'C', '-'] + k + seq!['>']) == Some(
            KeyEvent { code: query_code_spec(k)->0, modifiers: KeyModifiers::CONTROL },
        ),
        parse_key_event_spec(seq!['<', 'A', '-'] + k + seq!['>']) == Some(
            KeyEvent { code: query_code_spec(k)->0, modifiers: KeyModifiers::ALT },
        ),
        parse_key_event_spec(seq!['<', 'S', '-'] + k + seq!['>']) == Some(
            KeyEvent { code: query_code_spec(k)->0, modifiers: KeyModifiers::SHIFT },
        ),
{
    lemma_modifier_prefixes();
    lemma_modifier_term(k, seq!['C', '-'], false, true, false);
    lemma_modifier_term(k, seq!['A', '-'], false, false, true);
    lemma_modifier_term(k, seq!['S', '-'], true, false, false);
    assert(seq!['<'] + seq!['C', '-'] =~= seq!['<', 'C', '-']);
    assert(seq!['<'] + seq!['A', '-'] =~= seq!['<', 'A', '-']);
    assert(seq!['<'] + seq!['S', '-'] =~= seq!['<', 'S', '-']);
    lemma_modifiers_of(KeyModifiers::CONTROL, false, true, false);
    lemma_modifiers_of(KeyModifiers::ALT, false, false, true);
    lemma_modifiers_of(KeyModifiers::SHIFT, true, false, false);
}

/// The term `<` `pre` `k` `>`, for a modifier string `pre` and a key name `k` that does not
/// begin with a modifier letter, denotes the key `k` names with the modifiers of `pre`.
proof fn lemma_modifier_term(k: Seq<char>, pre: Seq<char>, shift: bool, control: bool, alt: bool)
    requires
        after_modifiers(scan(pre), shift, control, alt),
        pre.len() >= 2,
        pre[1] == '-',
        query_code_spec(k) is Some,
        !(k[0] == 'C' || k[0] == 'c' || k[0] == 'A' || k[0] == 'a' || k[0] == 'S' || k[0] == 's'),
    ensures
        parse_key_event_spec(seq!['<'] + pre + k + seq!['>']) == Some(
            KeyEvent { code: query_code_spec(k)->0, modifiers: modifiers_of(shift, control, alt) },
        ),
{
    if k.len() == 1 && is_ascii_graphic(k[0]) {
    } else {
        lemma_special_name_shape(k);
    }
    let t = seq!['<'] + pre + k + seq!['>'];
    let inner = t.subrange(1, t.len() - 1);
    assert(inner =~= pre + k);
    assert(k.take(k.len() as int) =~= k);
    lemma_scan_key_name(pre, k, k.len() as int, shift, control, alt);
    if unprintable_code(inner) is Some {
        lemma_special_name_shape(inner);
        assert(inner[1] == pre[1]);
    }
    assert(query_spec(t) is None);
}

/// A key event term with several modifiers, in the orders the terms allow (`<C-A-k>`,
/// `<C-S-k>`, `<S-A-k>`, `<C-S-A-k>`), denotes the key that the key name `k` names with all
/// those modifiers held, for every key name that does not begin with a modifier letter.
pub proof fn lemma_combined_modifier_terms(k: Seq<char>)
    requires
        query_code_spec(k) is Some,
        !(k[0] == 'C' || k[0] == 'c' || k[0] == 'A' || k[0] == 'a' || k[0] == 'S' || k[0] == 's'),
    ensures
        parse_key_event_spec(seq!['<', 'C', '-', 'A', '-'] + k + seq!['>']) == Some(
            KeyEvent { code: query_code_spec(k)->0, modifiers: KeyModifiers::CONTROL_ALT },
        ),
        parse_key_event_spec(seq!['<', 'C', '-', 'S', '-'] + k + seq!['>']) == Some(
            KeyEvent { code: query_code_spec(k)->0, modifiers: KeyModifiers::SHIFT_CONTROL },
        ),
        parse_key_event_spec(seq!['<', 'S', '-', 'A', '-'] + k + seq!['>']) == Some(
            KeyEvent { code: query_code_spec(k)->0, modifiers: KeyModifiers::SHIFT_ALT },
        ),
        parse_key_event_spec(seq!['<', 'C', '-', 'S', '-', 'A', '-'] + k + seq!['>']) == Some(
            KeyEvent { code: query_code_spec(k)->0, modifiers: KeyModifiers::SHIFT_CONTROL_ALT },
        ),
{
    lemma_modifier_prefixes();
    lemma_modifier_term(k, seq!['C', '-', 'A', '-'], false, true, true);
    lemma_modifier_term(k, seq!['C', '-', 'S', '-'], true, true, false);
    lemma_modifier_term(k, seq!['S', '-', 'A', '-'], true, false, true);
    lemma_modifier_term(k, seq!['C', '-', 'S', '-', 'A', '-'], true, true, true);
    assert(seq!['<'] + seq!['C', '-', 'A', '-'] =~= seq!['<', 'C', '-', 'A', '-']);
    assert(seq!['<'] + seq!['C', '-', 'S', '-'] =~= seq!['<', 'C', '-', 'S', '-']);
    assert(seq!['<'] + seq!['S', '-', 'A', '-'] =~= seq!['<', 'S', '-', 'A', '-']);
    assert(seq!['<'] + seq!['C', '-', 'S', '-', 'A', '-'] =~= seq!['<', 'C', '-', 'S', '-', 'A', '-']);
    lemma_modifiers_of(KeyModifiers::CONTROL_ALT, false, true, true);
    lemma_modifiers_of(KeyModifiers::SHIFT_CONTROL, true, true, false);
    lemma_modifiers_of(KeyModifiers::SHIFT_ALT, true, false, true);
    lemma_modifiers_of(KeyModifiers::SHIFT_CONTROL_ALT, true, true, true);
}

} // verus!

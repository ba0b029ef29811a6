//! The configuration language: option lines, key bind lines, layout includes and comments.
//!
//! An option line (`set <OPTION_NAME> = <OPTION_VALUE>`) sets a field of an
//! [`Options`](self::options::Options) object; a `bind` line maps a key press in a context to
//! a new context; a layout inclusion (`include layout '<file>'`, optionally followed by
//! ` as <name>`) adds a custom keyboard layout; lines that begin with `"` are comments.
//!
//! Key binds are layout-agnostic: a bound key names a QWERTY key position, and a key press is
//! translated to QWERTY by the current layout before it is looked up.

pub mod config_error;
pub mod keybinds;
pub mod options;

use self::config_error::{BindParseError, ConfigParseError, IncludeParseError, LayoutParseError};
use self::keybinds::Config as KeyBinds;
use self::keybinds::{binding_view, normalized};
use self::options::{LayoutType, LayoutTypeView, Options};
use crate::context::{ContextKind, ContextKindView};
use crate::keys::KeyEvent;
use crate::layout::{Colemak, CustomLayout, Dvorak, Layout, Qwerty, translate_keycode};
use crate::text::{
    chars_of, find_char, first_index, lemma_first_index, starts_with, starts_with_chars,
    string_of, subslice, trim, trim_chars,
};
use vstd::prelude::*;

verus! {

/// The kind of a configuration line.
pub enum Statement {
    /// An empty line, only whitespace, or a comment (beginning with `"`).
    Blank,
    /// A line beginning with `bind`.
    BindLine,
    /// A line beginning with `set`.
    SetLine,
    /// A line beginning with `include`.
    IncludeLine,
    /// Anything else.
    Other,
}

/// The kind of the configuration line `line`.
pub open spec fn statement_of(line: Seq<char>) -> Statement {
    if trim(line).len() == 0 || starts_with(line, seq!['"']) {
        Statement::Blank
    } else if starts_with(line, "bind"@) {
        Statement::BindLine
    } else if starts_with(line, "set"@) {
        Statement::SetLine
    } else if starts_with(line, "include"@) {
        Statement::IncludeLine
    } else {
        Statement::Other
    }
}

/// What an include line asks for.
pub enum IncludeView {
    /// A configuration file (`include '<file>'`), which is not read yet.
    Config,
    /// A layout file: `include layout '<file>'` and what follows the closing quote.
    Layout(Seq<char>, Seq<char>),
}

/// What the include line `line` asks for, or why it is malformed.
pub open spec fn include_of(line: Seq<char>) -> Result<IncludeView, IncludeParseError> {
    if !starts_with(line, "include "@) {
        Err(IncludeParseError::MalformedInclude)
    } else {
        let r = line.skip(8);
        if starts_with(r, seq!['\'']) {
            Ok(IncludeView::Config)
        } else if starts_with(r, "layout "@) {
            let r2 = r.skip(7);
            if starts_with(r2, seq!['\'']) && first_index(r2.skip(1), '\'') < r2.skip(1).len() {
                let q = r2.skip(1);
                let i = first_index(q, '\'');
                Ok(IncludeView::Layout(q.take(i), q.skip(i + 1)))
            } else {
                Err(IncludeParseError::LayoutNoQuotedFile)
            }
        } else {
            Err(IncludeParseError::UnknownIncludeType)
        }
    }
}

/// The name under which an included layout is kept: given by ` as <name>` after the file
/// name (trimmed), or else the layout's own; `None` for anything else after the file name.
pub open spec fn alias_of(rest: Seq<char>) -> Option<Option<Seq<char>>> {
    if rest.len() == 0 {
        Some(None)
    } else if starts_with(rest, " as "@) {
        Some(Some(trim(rest.skip(4))))
    } else {
        None
    }
}

/// What the editor has to do after a configuration line was read.
pub enum LineStep {
    /// Nothing: go on with the next line.
    Done,
    /// Read the layout file `file` and hand its layout (or why it could not be had) to
    /// [`Config::add_layout`] with `rest`, what followed the file name.
    LoadLayout {
        /// The layout file.
        file: String,
        /// What followed the closing quote.
        rest: String,
    },
}

/// The index of the first layout named `name`, or the number of layouts if none is.
pub open spec fn layout_index(ls: Seq<(String, CustomLayout)>, name: Seq<char>) -> int
    decreases ls.len(),
{
    if ls.len() == 0 {
        0
    } else if ls[0].0@ == name {
        0
    } else {
        1 + layout_index(ls.drop_first(), name)
    }
}

/// Whether no two of the layouts `ls` have the same name (a layout added under a name that is
/// taken replaces the one there).
pub open spec fn layout_names_unique(ls: Seq<(String, CustomLayout)>) -> bool {
    forall|i: int, j: int| 0 <= i < j < ls.len() ==> ls[i].0@ != ls[j].0@
}

/// Whether a layout is named `name`.
pub open spec fn has_layout(ls: Seq<(String, CustomLayout)>, name: Seq<char>) -> bool {
    exists|i: int| 0 <= i < ls.len() && #[trigger] ls[i].0@ == name
}

/// How a key code is translated to QWERTY in the layout `lt`, with the custom layouts `ls`.
pub open spec fn qwerty_code(code: crate::keys::KeyCode, lt: LayoutTypeView, ls: Seq<(String, CustomLayout)>) -> crate::keys::KeyCode {
    match lt {
        LayoutTypeView::Qwerty => translate_keycode(code, |b: u8| Qwerty.spec_to_qwerty(b)),
        LayoutTypeView::Dvorak => translate_keycode(code, |b: u8| Dvorak.spec_to_qwerty(b)),
        LayoutTypeView::Colemak => translate_keycode(code, |b: u8| Colemak.spec_to_qwerty(b)),
        LayoutTypeView::Custom(name) => {
            let l = ls[layout_index(ls, name)].1;
            translate_keycode(code, |b: u8| l.spec_to_qwerty(b))
        },
    }
}

/// The key code of the layout `lt` at the position of the QWERTY key code `code`, with the custom layouts
/// `ls`.
pub open spec fn layout_code(code: crate::keys::KeyCode, lt: LayoutTypeView, ls: Seq<(String, CustomLayout)>) -> crate::keys::KeyCode {
    match lt {
        LayoutTypeView::Qwerty => translate_keycode(code, |b: u8| Qwerty.spec_from_qwerty(b)),
        LayoutTypeView::Dvorak => translate_keycode(code, |b: u8| Dvorak.spec_from_qwerty(b)),
        LayoutTypeView::Colemak => translate_keycode(code, |b: u8| Colemak.spec_from_qwerty(b)),
        LayoutTypeView::Custom(name) => {
            let l = ls[layout_index(ls, name)].1;
            translate_keycode(code, |b: u8| l.spec_from_qwerty(b))
        },
    }
}

/// Struct to hold configuration details of fim.
pub struct Config {
    /// `Options` object.
    pub opt: Options,
    /// The key binds.
    pub key_binds: KeyBinds,
    /// The custom layouts, each under the name it was included as.
    pub layouts: Vec<(String, CustomLayout)>,
}

/// Whether the layout type names a layout that is there.
pub open spec fn layout_known(lt: LayoutTypeView, ls: Seq<(String, CustomLayout)>) -> bool {
    lt matches LayoutTypeView::Custom(name) ==> has_layout(ls, name)
}

proof fn lemma_layout_index(ls: Seq<(String, CustomLayout)>, name: Seq<char>)
    ensures
        0 <= layout_index(ls, name) <= ls.len(),
        layout_index(ls, name) < ls.len() ==> ls[layout_index(ls, name)].0@ == name,
        layout_index(ls, name) < ls.len() <==> has_layout(ls, name),
    decreases ls.len(),
{
    if ls.len() > 0 && ls[0].0@ != name {
        lemma_layout_index(ls.drop_first(), name);
        if has_layout(ls, name) {
            let i = choose|i: int| 0 <= i < ls.len() && #[trigger] ls[i].0@ == name;
            assert(ls.drop_first()[i - 1].0@ == name);
        }
        if has_layout(ls.drop_first(), name) {
            let i = choose|i: int| 0 <= i < ls.drop_first().len() && #[trigger] ls.drop_first()[i].0@ == name;
            assert(ls[i + 1].0@ == name);
        }
    } else if ls.len() > 0 {
        assert(ls[0].0@ == name);
    }
}

fn find_layout(ls: &Vec<(String, CustomLayout)>, name: &str) -> (r: usize)
    ensures
        r == layout_index(ls@, name@),
{
    let mut i: usize = 0;
    assert(ls@.skip(0) =~= ls@);
    while i < ls.len()
        invariant
            i <= ls@.len(),
            layout_index(ls@, name@) == i + layout_index(ls@.skip(i as int), name@),
        decreases ls@.len() - i,
    {
        assert(ls@.skip(i as int)[0] == ls@[i as int]);
        if crate::text::str_eq(ls[i].0.as_str(), name) {
            return i;
        }
        assert(ls@.skip(i as int).drop_first() =~= ls@.skip(i + 1));
        i += 1;
    }
    i
}

impl Config {
    /// A configuration with the default options, no key binds and no custom layouts.
    pub fn new() -> (c: Self)
        ensures
            c.opt@ == options::default_options(),
            c.key_binds.bindings() == Seq::<(Seq<char>, KeyEvent, ContextKindView)>::empty(),
            c.layouts@ == Seq::<(String, CustomLayout)>::empty(),
            c.wf(),
    {
        Config { opt: Options::default(), key_binds: KeyBinds::empty(), layouts: Vec::new() }
    }

    /// The current layout is one that is there, and no two layouts have the same name.
    pub open spec fn wf(&self) -> bool {
        &&& layout_known(self.opt.layout@, self.layouts@)
        &&& layout_names_unique(self.layouts@)
    }

    /// Reads the configuration line `line`, numbered `line_no`: skips blank lines and
    /// comments, adds key binds, sets options and starts layout includes. After an error the
    /// configuration is not to be used.
    pub fn parse_line(&mut self, line: &str, line_no: usize) -> (r: Result<LineStep, ConfigParseError>)
        requires
            old(self).wf(),
        ensures
            r is Ok ==> final(self).wf(),
            final(self).layouts@ == old(self).layouts@,
            match statement_of(line@) {
                Statement::Blank => r matches Ok(LineStep::Done) && final(self).opt@ == old(self).opt@
                    && final(self).key_binds.bindings() == old(self).key_binds.bindings(),
                Statement::BindLine => final(self).opt@ == old(self).opt@ && match keybinds::parse_line_view(line@) {
                    Some(b) => r matches Ok(LineStep::Done) && final(self).key_binds.bindings() == old(
                        self,
                    ).key_binds.bindings().push(b),
                    None => r matches Err(ConfigParseError::BindParseError { error, line: l }) && l
                        == line_no && keybinds::bind_line_error(
                        line@,
                        0,
                        ConfigParseError::BindParseError { error, line: 0 },
                    ),
                },
                Statement::SetLine => final(self).key_binds.bindings() == old(self).key_binds.bindings()
                    && match options::option_line(line@) {
                    None => r == Err::<LineStep, ConfigParseError>(
                        ConfigParseError::OptionParseError {
                            error: options::option_line_error(line@),
                            line: line_no,
                        },
                    ),
                    Some((name, value)) => match options::set_option_spec(old(self).opt@, name, value) {
                        Some(Ok(o)) => final(self).opt@ == o && if layout_known(o.layout, old(self).layouts@) {
                            r matches Ok(LineStep::Done)
                        } else {
                            r == Err::<LineStep, ConfigParseError>(
                                ConfigParseError::NoMatchingLayout { line: line_no },
                            )
                        },
                        _ => r matches Err(ConfigParseError::OptionParseError { error, line: l }) && l
                            == line_no && options::set_option_outcome(
                            old(self).opt@,
                            name,
                            value,
                            final(self).opt@,
                            Err(error),
                        ),
                    },
                },
                Statement::IncludeLine => final(self).opt@ == old(self).opt@ && final(self).key_binds.bindings()
                    == old(self).key_binds.bindings() && match include_of(line@) {
                    Err(e) => r == Err::<LineStep, ConfigParseError>(
                        ConfigParseError::IncludeParseError { error: e, line: line_no },
                    ),
                    Ok(IncludeView::Config) => r matches Ok(LineStep::Done),
                    Ok(IncludeView::Layout(file, rest)) => r matches Ok(LineStep::LoadLayout { file: f, rest: t })
                        && f@ == file && t@ == rest,
                },
                Statement::Other => r == Err::<LineStep, ConfigParseError>(
                    ConfigParseError::NotAStatement { line: line_no },
                ),
            },
    {
        let v = chars_of(line);
        let t = trim_chars(v.as_slice());
        let quote = chars_of("\"");
        let bind = chars_of("bind");
        let set = chars_of("set");
        let incl = chars_of("include");
        proof {
            reveal_strlit("\"");
            assert("\""@ =~= seq!['"']);
        }
        if t.len() == 0 || starts_with_chars(v.as_slice(), quote.as_slice()) {
            return Ok(LineStep::Done);
        }
        if starts_with_chars(v.as_slice(), bind.as_slice()) {
            match KeyBinds::parse_line(line, 0) {
                Ok(b) => {
                    self.key_binds.add_binding(b);
                    Ok(LineStep::Done)
                },
                Err(e) => match e {
                    ConfigParseError::BindParseError { error, line: _ } => Err(
                        ConfigParseError::bind(error, line_no),
                    ),
                    _ => Err(ConfigParseError::bind(BindParseError::NotEnoughTerms, line_no)),
                },
            }
        } else if starts_with_chars(v.as_slice(), set.as_slice()) {
            match self.opt.set_option(line) {
                Ok(()) => {},
                Err(e) => {
                    return Err(ConfigParseError::option(e, line_no));
                },
            }
            match &self.opt.layout {
                LayoutType::Custom { name } => {
                    let i = find_layout(&self.layouts, name.as_str());
                    proof {
                        lemma_layout_index(self.layouts@, name@);
                    }
                    if i >= self.layouts.len() {
                        return Err(ConfigParseError::NoMatchingLayout { line: line_no });
                    }
                },
                _ => {},
            }
            Ok(LineStep::Done)
        } else if starts_with_chars(v.as_slice(), incl.as_slice()) {
            match Self::parse_include(v.as_slice()) {
                Ok(step) => Ok(step),
                Err(e) => Err(ConfigParseError::include_error(e, line_no)),
            }
        } else {
            Err(ConfigParseError::NotAStatement { line: line_no })
        }
    }

    fn parse_include(line: &[char]) -> (r: Result<LineStep, IncludeParseError>)
        ensures
            match include_of(line@) {
                Err(e) => r == Err::<LineStep, IncludeParseError>(e),
                Ok(IncludeView::Config) => r matches Ok(LineStep::Done),
                Ok(IncludeView::Layout(file, rest)) => r matches Ok(LineStep::LoadLayout { file: f, rest: t })
                    && f@ == file && t@ == rest,
            },
    {
        let prefix = chars_of("include ");
        let lay = chars_of("layout ");
        let quote = chars_of("'");
        proof {
            reveal_strlit("include ");
            reveal_strlit("layout ");
            reveal_strlit("'");
            assert("'"@ =~= seq!['\'']);
        }
        if !starts_with_chars(line, prefix.as_slice()) {
            return Err(IncludeParseError::MalformedInclude);
        }
        let r = subslice(line, 8, line.len());
        assert(r@ =~= line@.skip(8));
        if starts_with_chars(r.as_slice(), quote.as_slice()) {
            return Ok(LineStep::Done);
        }
        if !starts_with_chars(r.as_slice(), lay.as_slice()) {
            return Err(IncludeParseError::UnknownIncludeType);
        }
        let r2 = subslice(r.as_slice(), 7, r.len());
        assert(r2@ =~= r@.skip(7));
        if !starts_with_chars(r2.as_slice(), quote.as_slice()) {
            return Err(IncludeParseError::LayoutNoQuotedFile);
        }
        let q = subslice(r2.as_slice(), 1, r2.len());
        assert(q@ =~= r2@.skip(1));
        let i = find_char(q.as_slice(), '\'', 0);
        assert(q@.skip(0) =~= q@);
        if i >= q.len() {
            return Err(IncludeParseError::LayoutNoQuotedFile);
        }
        let file = subslice(q.as_slice(), 0, i);
        let rest = subslice(q.as_slice(), i + 1, q.len());
        assert(file@ =~= q@.take(i as int));
        assert(rest@ =~= q@.skip(i + 1));
        Ok(LineStep::LoadLayout { file: string_of(file.as_slice()), rest: string_of(rest.as_slice()) })
    }

    /// Keeps the layout that an include line asked for (or reports why it could not be had),
    /// under the name that `rest`, what followed the file name on line `line_no`, gives.
    pub fn add_layout(&mut self, loaded: Result<CustomLayout, LayoutParseError>, rest: &str, line_no: usize) -> (r: Result<(), ConfigParseError>)
        requires
            old(self).wf(),
        ensures
            final(self).wf(),
            final(self).opt@ == old(self).opt@,
            final(self).key_binds.bindings() == old(self).key_binds.bindings(),
            match loaded {
                Err(e) => r == Err::<(), ConfigParseError>(ConfigParseError::LayoutParseError { error: e, line: line_no })
                    && final(self).layouts@ == old(self).layouts@,
                Ok(l) => match alias_of(rest@) {
                    None => r == Err::<(), ConfigParseError>(
                        ConfigParseError::IncludeParseError {
                            error: IncludeParseError::MalformedAsClause,
                            line: line_no,
                        },
                    ) && final(self).layouts@ == old(self).layouts@,
                    Some(alias) => {
                        let n = match alias {
                            Some(a) => a,
                            None => l.name_view(),
                        };
                        let k = layout_index(old(self).layouts@, n);
                        &&& r is Ok
                        &&& final(self).layouts@.len() == if k < old(self).layouts@.len() {
                            old(self).layouts@.len()
                        } else {
                            old(self).layouts@.len() + 1
                        }
                        &&& final(self).layouts@[k].0@ == n
                        &&& final(self).layouts@[k].1 == l
                        &&& forall|j: int|
                            0 <= j < old(self).layouts@.len() && j != k ==> final(self).layouts@[j]
                                == old(self).layouts@[j]
                    },
                },
            },
    {
        let layout = match loaded {
            Ok(l) => l,
            Err(e) => {
                return Err(ConfigParseError::layout(e, line_no));
            },
        };
        let v = chars_of(rest);
        let name: String = if v.len() != 0 {
            let as_clause = chars_of(" as ");
            proof {
                reveal_strlit(" as ");
            }
            if starts_with_chars(v.as_slice(), as_clause.as_slice()) {
                let tail = subslice(v.as_slice(), 4, v.len());
                assert(tail@ =~= rest@.skip(4));
                string_of(trim_chars(tail.as_slice()).as_slice())
            } else {
                return Err(ConfigParseError::include_error(IncludeParseError::MalformedAsClause, line_no));
            }
        } else {
            layout.name().to_owned()
        };
        let i = find_layout(&self.layouts, name.as_str());
        let ghost old_ls = self.layouts@;
        let ghost nv = name@;
        proof {
            lemma_layout_index(old_ls, name@);
        }
        if i < self.layouts.len() {
            self.layouts.set(i, (name, layout));
        } else {
            self.layouts.push((name, layout));
        }
        proof {
            let ls = self.layouts@;
            assert(ls[i as int].0@ == nv);
            assert forall|n: Seq<char>| has_layout(old_ls, n) implies has_layout(ls, n) by {
                let j = choose|j: int| 0 <= j < old_ls.len() && #[trigger] old_ls[j].0@ == n;
                if j == i {
                    assert(ls[j].0@ == n);
                } else {
                    assert(ls[j] == old_ls[j]);
                }
            }
            if let LayoutTypeView::Custom(cn) = self.opt.layout@ {
                assert(has_layout(old_ls, cn));
            }
            assert forall|a: int, b: int| 0 <= a < b < ls.len() implies ls[a].0@ != ls[b].0@ by {
                if a != i && b != i {
                    assert(ls[a] == old_ls[a] && ls[b] == old_ls[b]);
                } else if a == i {
                    assert(ls[b] == old_ls[b]);
                    if i >= old_ls.len() {
                        assert(old_ls[b].0@ != nv);
                    }
                } else {
                    assert(ls[a] == old_ls[a]);
                    if i >= old_ls.len() {
                        assert(old_ls[a].0@ != nv);
                    }
                }
            }
        }
        Ok(())
    }

    /// Translates a key code from the layout `layout` into QWERTY.
    pub fn to_qwerty_code(code: crate::keys::KeyCode, layout: &LayoutType, layouts: &Vec<(String, CustomLayout)>) -> (r: crate::keys::KeyCode)
        requires
            layout_known(layout@, layouts@),
        ensures
            r == qwerty_code(code, layout@, layouts@),
    {
        match layout {
            LayoutType::Qwerty => Qwerty.to_qwerty_keycode(code),
            LayoutType::Dvorak => Dvorak.to_qwerty_keycode(code),
            LayoutType::Colemak => Colemak.to_qwerty_keycode(code),
            LayoutType::Custom { name } => {
                let i = find_layout(layouts, name.as_str());
                proof {
                    lemma_layout_index(layouts@, name@);
                }
                layouts[i].1.to_qwerty_keycode(code)
            },
        }
    }

    /// Convert a key event from the layout `layout` into a QWERTY key event.
    pub fn to_qwerty_event(e: KeyEvent, layout: &LayoutType, layouts: &Vec<(String, CustomLayout)>) -> (r: KeyEvent)
        requires
            layout_known(layout@, layouts@),
        ensures
            r == (KeyEvent { code: qwerty_code(e.code, layout@, layouts@), modifiers: e.modifiers }),
    {
        KeyEvent::new(Self::to_qwerty_code(e.code, layout, layouts), e.modifiers)
    }

    /// Translate a QWERTY key event into a key event from the current layout.
    pub fn to_current_layout_event(&self, e: KeyEvent) -> (r: KeyEvent)
        requires
            self.wf(),
        ensures
            r == (KeyEvent { code: layout_code(e.code, self.opt.layout@, self.layouts@), modifiers: e.modifiers }),
    {
        let code = match &self.opt.layout {
            LayoutType::Qwerty => Qwerty.from_qwerty_keycode(e.code),
            LayoutType::Dvorak => Dvorak.from_qwerty_keycode(e.code),
            LayoutType::Colemak => Colemak.from_qwerty_keycode(e.code),
            LayoutType::Custom { name } => {
                let i = find_layout(&self.layouts, name.as_str());
                proof {
                    lemma_layout_index(self.layouts@, name@);
                }
                self.layouts[i].1.from_qwerty_keycode(e.code)
            },
        };
        KeyEvent::new(code, e.modifiers)
    }

    /// The context that the key press `key`, made in the current layout, starts in the
    /// context named `context`: the key is translated to QWERTY and looked up in the binds.
    pub fn query_binds(&self, context: &str, key: KeyEvent) -> (r: Option<&ContextKind>)
        requires
            self.wf(),
        ensures
            ({
                let bs = self.key_binds.bindings();
                let k = normalized(KeyEvent { code: qwerty_code(key.code, self.opt.layout@, self.layouts@), modifiers: key.modifiers });
                &&& r is None <==> (forall|i: int| 0 <= i < bs.len() ==> !#[trigger] keybinds::binds(bs, i, context@, k))
                &&& r matches Some(kind) ==> exists|i: int|
                    0 <= i < bs.len() && #[trigger] keybinds::binds(bs, i, context@, k) && (forall|j: int|
                        0 <= j < i ==> !keybinds::binds(bs, j, context@, k)) && kind@ == bs[i].2
            }),
    {
        let q = Self::to_qwerty_event(key, &self.opt.layout, &self.layouts);
        self.key_binds.query(context, q)
    }
}

} // verus!

//! Contexts: the editor's modes and one-shot actions.
//!
//! Only one context is active at a time, on top of the 'context stack'. The active context is
//! forwarded every key press and may push new contexts; when a context returns, its message is
//! received by the context beneath it.
use crate::keys::KeyCode;
use crate::text::{chars_of, str_eq, string_of};
use vstd::prelude::*;

verus! {

/// Which context a key bind starts: the data from which the editor creates the context.
#[derive(Debug, PartialEq, Eq, Clone)]
pub enum ContextKind {
    /// [`NormalMode`].
    NormalMode,
    /// [`CommandMode`].
    CommandMode,
    /// An [`Action`] with the given arguments.
    Action(String),
    /// [`InsertMode`].
    InsertMode,
}

/// A [`ContextKind`] as a value: the kind, with the text of an action's arguments.
pub enum ContextKindView {
    /// [`NormalMode`].
    NormalMode,
    /// [`CommandMode`].
    CommandMode,
    /// An [`Action`] with the given arguments.
    Action(Seq<char>),
    /// [`InsertMode`].
    InsertMode,
}

impl View for ContextKind {
    type V = ContextKindView;

    open spec fn view(&self) -> ContextKindView {
        match self {
            ContextKind::NormalMode => ContextKindView::NormalMode,
            ContextKind::CommandMode => ContextKindView::CommandMode,
            ContextKind::Action(args) => ContextKindView::Action(args@),
            ContextKind::InsertMode => ContextKindView::InsertMode,
        }
    }
}

/// The context named `name`, given the arguments `args`.
pub open spec fn context_of(name: Seq<char>, args: Seq<char>) -> Option<ContextKindView> {
    if name == "NormalMode"@ {
        Some(ContextKindView::NormalMode)
    } else if name == "CommandMode"@ {
        Some(ContextKindView::CommandMode)
    } else if name == "Action"@ {
        Some(ContextKindView::Action(args))
    } else if name == "InsertMode"@ {
        Some(ContextKindView::InsertMode)
    } else {
        None
    }
}

/// Maps between names and contexts.
///
/// Returns `None` if there is no context with the name `name`; otherwise the context, to
/// which `args` are passed where it takes arguments.
pub fn context(name: &str, args: String) -> (r: Option<ContextKind>)
    ensures
        r is Some <==> context_of(name@, args@) is Some,
        r matches Some(k) ==> context_of(name@, args@) == Some(k@),
{
    if str_eq(name, "NormalMode") {
        Some(ContextKind::NormalMode)
    } else if str_eq(name, "CommandMode") {
        Some(ContextKind::CommandMode)
    } else if str_eq(name, "Action") {
        Some(ContextKind::Action(args))
    } else if str_eq(name, "InsertMode") {
        Some(ContextKind::InsertMode)
    } else {
        None
    }
}

/// Struct that represents a "one-and-done" action context.
///
/// This is the context that does one action in its `setup` method, and then returns. This is
/// not for state-like contexts (e.g. `NormalMode` or `CommandMode`).
pub struct Action {
    action: String,
}

impl Action {
    /// Create a new `Action` corresponding to the passed string.
    pub fn new(action: String) -> (a: Self)
        ensures
            a.action_text() == action@,
    {
        Action { action }
    }

    /// The action to perform.
    pub closed spec fn action_text(self) -> Seq<char> {
        self.action@
    }

    /// The action to perform.
    pub fn action(&self) -> (s: &str)
        ensures
            s@ == self.action_text(),
    {
        self.action.as_str()
    }
}

/// A [`CommandMode`] as a value: the command line's text, the first character shown, the
/// cursor's place in the text, how far back in the command history the line comes from,
/// and the line that was being typed before the history was entered.
pub struct CommandModeView {
    /// The text of the command line.
    pub text: Seq<char>,
    /// The index of the first character that is shown.
    pub begin: int,
    /// The index of the character under the cursor.
    pub cursor: int,
    /// How many commands back in the history the shown command is.
    pub rev: Option<int>,
    /// The text that was typed before the history was entered.
    pub saved: Option<Seq<char>>,
}

/// What the editor has to do after a key press in command mode.
#[derive(Debug, PartialEq, Eq, Clone)]
pub enum CommandAction {
    /// Nothing.
    Nothing,
    /// Redraw the command line and flush.
    Draw,
    /// Move the cursor and flush.
    Move,
    /// Redraw the command line, move the cursor and flush.
    Redraw,
    /// The command is entered: quit if it asks so, record it, and leave command mode.
    Finish {
        /// Whether the command is `q`.
        quit: bool,
        /// The entered command.
        command: String,
    },
}

/// The kind of a [`CommandAction`].
pub enum CommandStep {
    /// Nothing.
    Nothing,
    /// Redraw the command line.
    Draw,
    /// Move the cursor.
    Move,
    /// Redraw and move.
    Redraw,
    /// Enter the command.
    Finish,
}

/// Struct that represents fim's CommandMode context.
///
/// This is the context where you enter commands after a ':' at the bottom of the screen.
/// Positions in the command line count characters.
pub struct CommandMode {
    text: Vec<char>,
    begin: usize,
    cursor_pos: usize,
    rev_cmd_idx: Option<usize>,
    saved_str: Option<Vec<char>>,
}

/// The command `idx` places back from the newest in `stack`.
pub open spec fn command_at(stack: Seq<Seq<char>>, idx: int) -> Option<Seq<char>> {
    if stack.len() < idx + 1 {
        None
    } else {
        Some(stack[stack.len() - idx - 1])
    }
}

/// The first character to show so that the end of a line of `len` characters fits a
/// terminal `width` columns wide (after the `:` and with room for the cursor).
pub open spec fn begin_for_end_spec(len: int, width: int) -> int {
    if width > len + 2 {
        0
    } else {
        len + 2 - width
    }
}

/// The terminal column of the cursor, before it is cut to a `u16`.
pub open spec fn column_of(v: CommandModeView) -> int {
    1 + v.cursor - v.begin
}

/// The terminal column of the cursor.
pub open spec fn column16(v: CommandModeView) -> int {
    (column_of(v) as u16) as int
}

/// `v` showing the command `cmd`, with the cursor at its end.
pub open spec fn load_command(v: CommandModeView, cmd: Seq<char>, width: int) -> CommandModeView {
    CommandModeView {
        text: cmd,
        cursor: cmd.len() as int,
        begin: begin_for_end_spec(cmd.len() as int, width),
        ..v
    }
}

/// The new state and the action of the key `code`, in a terminal `width` columns wide, with
/// the command history `stack` (oldest first).
pub open spec fn command_step(v: CommandModeView, code: KeyCode, width: int, stack: Seq<Seq<char>>) -> (
    CommandModeView,
    CommandStep,
) {
    let len = v.text.len() as int;
    match code {
        KeyCode::Enter => (v, CommandStep::Finish),
        KeyCode::Up => {
            let rev = match v.rev {
                None => 0,
                Some(i) => i + 1,
            };
            let saved = if v.rev is None {
                Some(v.text)
            } else {
                v.saved
            };
            match command_at(stack, rev) {
                Some(cmd) => (
                    load_command(CommandModeView { rev: Some(rev), saved, ..v }, cmd, width),
                    CommandStep::Redraw,
                ),
                None => (CommandModeView { saved, ..v }, CommandStep::Nothing),
            }
        },
        KeyCode::Down => {
            let r = match v.rev {
                None => 0,
                Some(i) => i,
            };
            if r > 0 {
                match command_at(stack, r - 1) {
                    Some(cmd) => (
                        load_command(CommandModeView { rev: Some(r - 1), ..v }, cmd, width),
                        CommandStep::Redraw,
                    ),
                    None => (v, CommandStep::Nothing),
                }
            } else if v.rev == Some(0int) && v.saved is Some {
                (
                    load_command(CommandModeView { rev: None, saved: None, ..v }, v.saved->0, width),
                    CommandStep::Redraw,
                )
            } else {
                (v, CommandStep::Nothing)
            }
        },
        KeyCode::Left => {
            if v.cursor > 0 {
                if column16(v) == 1 && v.begin != 0 {
                    (CommandModeView { begin: v.begin - 1, ..v }, CommandStep::Draw)
                } else {
                    (CommandModeView { cursor: v.cursor - 1, ..v }, CommandStep::Move)
                }
            } else {
                (v, CommandStep::Nothing)
            }
        },
        KeyCode::Right => {
            if v.cursor < len {
                if column16(v) + 1 == width {
                    (CommandModeView { begin: v.begin + 1, ..v }, CommandStep::Draw)
                } else {
                    (CommandModeView { cursor: v.cursor + 1, ..v }, CommandStep::Move)
                }
            } else {
                (v, CommandStep::Nothing)
            }
        },
        KeyCode::Backspace => {
            if v.cursor > 0 {
                (
                    CommandModeView { text: v.text.remove(v.cursor - 1), cursor: v.cursor - 1, ..v },
                    CommandStep::Redraw,
                )
            } else {
                (v, CommandStep::Nothing)
            }
        },
        KeyCode::Delete => {
            if v.cursor < len {
                (CommandModeView { text: v.text.remove(v.cursor), ..v }, CommandStep::Redraw)
            } else {
                (v, CommandStep::Nothing)
            }
        },
        KeyCode::Char(c) => {
            let begin = if (v.begin == 0 && v.cursor + 2 == width) || (v.begin != 0 && v.cursor
                == len) {
                v.begin + 1
            } else {
                v.begin
            };
            (
                CommandModeView {
                    text: v.text.insert(v.cursor, c),
                    cursor: v.cursor + 1,
                    begin,
                    ..v
                },
                CommandStep::Redraw,
            )
        },
        _ => (v, CommandStep::Nothing),
    }
}

/// Whether the shown part of the command line can be cut out of `v`'s text.
pub open spec fn draw_ok(v: CommandModeView, width: int) -> bool {
    width >= 1 && v.begin <= v.text.len() && v.begin + width <= usize::MAX
}

/// Whether the cursor's column can be computed.
pub open spec fn move_ok(v: CommandModeView) -> bool {
    v.begin <= v.cursor + 1
}

/// Whether the key `code` can be handled in `v` without an arithmetic overflow or a slice out
/// of bounds.
pub open spec fn command_step_ok(v: CommandModeView, code: KeyCode, width: int, stack: Seq<Seq<char>>) -> bool {
    let (n, step) = command_step(v, code, width, stack);
    &&& v.text.len() + 2 <= usize::MAX
    &&& n.text.len() + 2 <= usize::MAX
    &&& (code is Left && v.cursor > 0 ==> move_ok(v))
    &&& (code is Right && v.cursor < v.text.len() ==> move_ok(v) && column16(v) < u16::MAX)
    &&& (code is Up ==> (v.rev matches Some(i) ==> i + 1 < usize::MAX))
    &&& (step is Draw || step is Redraw ==> draw_ok(n, width))
    &&& (step is Move || step is Redraw ==> move_ok(n))
}

impl CommandMode {
    /// Create a new CommandMode instance: an empty command line.
    pub fn new() -> (c: CommandMode)
        ensures
            c@ == (CommandModeView {
                text: Seq::empty(),
                begin: 0,
                cursor: 0,
                rev: None,
                saved: None,
            }),
            c.wf(),
    {
        CommandMode {
            text: Vec::new(),
            begin: 0,
            cursor_pos: 0,
            rev_cmd_idx: None,
            saved_str: None,
        }
    }

    /// The state as a value.
    pub closed spec fn view(&self) -> CommandModeView {
        CommandModeView {
            text: self.text@,
            begin: self.begin as int,
            cursor: self.cursor_pos as int,
            rev: match self.rev_cmd_idx {
                Some(i) => Some(i as int),
                None => None,
            },
            saved: match self.saved_str {
                Some(s) => Some(s@),
                None => None,
            },
        }
    }

    /// The cursor lies within the text.
    pub closed spec fn wf(&self) -> bool {
        self.cursor_pos <= self.text@.len()
    }

    /// The terminal column of the cursor.
    pub fn terminal_x(&self) -> (x: u16)
        requires
            move_ok(self@),
            self@.cursor < usize::MAX,
        ensures
            x == column16(self@),
    {
        (1 + self.cursor_pos - self.begin) as u16
    }

    /// The first character to show so that the end of the text fits a terminal `width`
    /// columns wide.
    pub fn begin_for_end(&self, width: u16) -> (b: usize)
        requires
            self@.text.len() + 2 <= usize::MAX,
        ensures
            b == begin_for_end_spec(self@.text.len() as int, width as int),
    {
        let width: usize = width as usize;
        if width > self.text.len() + 2 {
            0
        } else {
            self.text.len() + 2 - width
        }
    }

    /// The command `rev` places back in the history `stack`, if the line shows one.
    pub fn get_command<'a>(&self, stack: &'a Vec<String>) -> (r: Option<&'a String>)
        requires
            self@.rev matches Some(i) ==> i < usize::MAX,
        ensures
            match self@.rev {
                Some(i) => match command_at(stack@.map_values(|s: String| s@), i) {
                    Some(c) => r matches Some(s) && s@ == c,
                    None => r is None,
                },
                None => r is None,
            },
    {
        if let Some(idx) = self.rev_cmd_idx {
            if stack.len() < idx + 1 {
                None
            } else {
                Some(&stack[stack.len() - idx - 1])
            }
        } else {
            None
        }
    }

    /// The part of the command line that a terminal `width` columns wide shows after the
    /// `:`.
    pub fn visible(&self, width: u16) -> (s: String)
        requires
            draw_ok(self@, width as int),
        ensures
            s@ == self@.text.subrange(
                self@.begin,
                if self@.begin + width - 1 < self@.text.len() {
                    self@.begin + width - 1
                } else {
                    self@.text.len() as int
                },
            ),
    {
        let w: usize = width as usize;
        let end = if self.begin + w - 1 < self.text.len() {
            self.begin + w - 1
        } else {
            self.text.len()
        };
        let mut v: Vec<char> = Vec::new();
        let mut i = self.begin;
        while i < end
            invariant
                self.begin <= i <= end <= self.text@.len(),
                v@ == self.text@.subrange(self.begin as int, i as int),
            decreases end - i,
        {
            v.push(self.text[i]);
            assert(self.text@.subrange(self.begin as int, i + 1) =~= self.text@.subrange(
                self.begin as int,
                i as int,
            ).push(self.text@[i as int]));
            i += 1;
        }
        string_of(v.as_slice())
    }

    fn load(&mut self, cmd: Vec<char>, width: u16)
        requires
            cmd@.len() + 2 <= usize::MAX,
        ensures
            final(self)@ == load_command(old(self)@, cmd@, width as int),
            final(self).wf(),
    {
        self.cursor_pos = cmd.len();
        self.text = cmd;
        self.begin = self.begin_for_end(width);
    }

    /// Whether [`CommandMode::forward`] can handle the key `code` in a terminal `width` columns
    /// wide with the history `stack`: no arithmetic overflows and no slice goes out of bounds.
    pub fn step_ok(&self, code: KeyCode, width: u16, stack: &Vec<String>) -> (b: bool)
        requires
            self.wf(),
        ensures
            b == command_step_ok(self@, code, width as int, stack@.map_values(|s: String| s@)),
    {
        let ghost st = stack@.map_values(|s: String| s@);
        let len = self.text.len();
        let w = width as usize;
        if len > usize::MAX - 2 {
            return false;
        }
        match code {
            KeyCode::Enter => true,
            KeyCode::Up => {
                let rev = match self.rev_cmd_idx {
                    None => 0,
                    Some(i) => {
                        if i >= usize::MAX - 1 {
                            return false;
                        }
                        i + 1
                    },
                };
                if stack.len() < rev + 1 {
                    true
                } else {
                    let cmd = chars_of(stack[stack.len() - rev - 1].as_str());
                    Self::loaded_ok(cmd.len(), width)
                }
            },
            KeyCode::Down => {
                let r = match self.rev_cmd_idx {
                    None => 0,
                    Some(i) => i,
                };
                if r > 0 {
                    if stack.len() < r {
                        true
                    } else {
                        let cmd = chars_of(stack[stack.len() - r].as_str());
                        Self::loaded_ok(cmd.len(), width)
                    }
                } else if self.rev_cmd_idx.is_some() {
                    match &self.saved_str {
                        Some(cmd) => Self::loaded_ok(cmd.len(), width),
                        None => true,
                    }
                } else {
                    true
                }
            },
            KeyCode::Left => {
                if self.cursor_pos > 0 {
                    if self.begin > self.cursor_pos + 1 {
                        return false;
                    }
                    if self.terminal_x() == 1 && self.begin != 0 {
                        w >= 1 && self.begin - 1 <= len && self.begin - 1 <= usize::MAX - w
                    } else {
                        self.begin <= self.cursor_pos
                    }
                } else {
                    true
                }
            },
            KeyCode::Right => {
                if self.cursor_pos < len {
                    if self.begin > self.cursor_pos + 1 {
                        return false;
                    }
                    let x = self.terminal_x();
                    if x == u16::MAX {
                        return false;
                    }
                    if x + 1 == width {
                        w >= 1 && self.begin + 1 <= len && self.begin + 1 <= usize::MAX - w
                    } else {
                        self.begin <= self.cursor_pos + 2
                    }
                } else {
                    true
                }
            },
            KeyCode::Backspace => {
                if self.cursor_pos > 0 {
                    w >= 1 && self.begin <= len - 1 && self.begin <= usize::MAX - w && self.begin
                        <= self.cursor_pos
                } else {
                    true
                }
            },
            KeyCode::Delete => {
                if self.cursor_pos < len {
                    w >= 1 && self.begin <= len - 1 && self.begin <= usize::MAX - w && self.begin
                        <= self.cursor_pos + 1
                } else {
                    true
                }
            },
            KeyCode::Char(_) => {
                if len > usize::MAX - 3 || self.begin == usize::MAX {
                    return false;
                }
                let begin = if (self.begin == 0 && self.cursor_pos + 2 == w) || (self.begin != 0
                    && self.cursor_pos == len) {
                    self.begin + 1
                } else {
                    self.begin
                };
                w >= 1 && begin <= len + 1 && begin <= usize::MAX - w && begin <= self.cursor_pos + 2
            },
            _ => true,
        }
    }

    /// Whether a command of `len` characters, loaded with the cursor at its end, can be
    /// drawn in a terminal `width` columns wide.
    fn loaded_ok(len: usize, width: u16) -> (b: bool)
        ensures
            b == ({
                let n = len as int;
                let begin = begin_for_end_spec(n, width as int);
                &&& n + 2 <= usize::MAX
                &&& width >= 1
                &&& begin <= n
                &&& begin + width <= usize::MAX
                &&& begin <= n + 1
            }),
    {
        if len > usize::MAX - 2 {
            return false;
        }
        let w = width as usize;
        let begin = if w > len + 2 {
            0
        } else {
            len + 2 - w
        };
        w >= 1 && begin <= len && begin <= usize::MAX - w
    }

    /// Handles a key press (its code `code`) in a terminal `width` columns wide, with the
    /// command history `stack` (oldest first), and says what the editor has to do.
    pub fn forward(&mut self, code: KeyCode, width: u16, stack: &Vec<String>) -> (r: CommandAction)
        requires
            old(self).wf(),
            command_step_ok(old(self)@, code, width as int, stack@.map_values(|s: String| s@)),
        ensures
            final(self).wf(),
            ({
                let (n, step) = command_step(
                    old(self)@,
                    code,
                    width as int,
                    stack@.map_values(|s: String| s@),
                );
                &&& final(self)@ == n
                &&& match step {
                    CommandStep::Nothing => r == CommandAction::Nothing,
                    CommandStep::Draw => r == CommandAction::Draw,
                    CommandStep::Move => r == CommandAction::Move,
                    CommandStep::Redraw => r == CommandAction::Redraw,
                    CommandStep::Finish => r matches CommandAction::Finish { quit, command } && quit
                        == (old(self)@.text == "q"@) && command@ == old(self)@.text,
                }
            }),
    {
        let ghost st = stack@.map_values(|s: String| s@);
        match code {
            KeyCode::Enter => {
                let quit = self.text.len() == 1 && self.text[0] == 'q';
                proof {
                    reveal_strlit("q");
                    if self.text@ == "q"@ {
                        assert(self.text@[0] == 'q');
                    }
                    if quit {
                        assert(self.text@ =~= "q"@);
                    }
                }
                CommandAction::Finish { quit, command: string_of(self.text.as_slice()) }
            },
            KeyCode::Up => {
                if self.rev_cmd_idx.is_none() {
                    self.saved_str = Some(self.text.clone());
                }
                self.rev_cmd_idx = Some(
                    match self.rev_cmd_idx {
                        None => 0,
                        Some(i) => i + 1,
                    },
                );
                match self.get_command(stack) {
                    Some(cmd) => {
                        let c = chars_of(cmd.as_str());
                        self.load(c, width);
                        CommandAction::Redraw
                    },
                    None => {
                        self.rev_cmd_idx = match self.rev_cmd_idx {
                            Some(0) => None,
                            Some(i) => Some(i - 1),
                            None => None,
                        };
                        CommandAction::Nothing
                    },
                }
            },
            KeyCode::Down => {
                let r = match self.rev_cmd_idx {
                    None => 0,
                    Some(i) => i,
                };
                if r > 0 {
                    self.rev_cmd_idx = Some(r - 1);
                    match self.get_command(stack) {
                        Some(cmd) => {
                            let c = chars_of(cmd.as_str());
                            self.load(c, width);
                            CommandAction::Redraw
                        },
                        None => {
                            self.rev_cmd_idx = Some(r);
                            CommandAction::Nothing
                        },
                    }
                } else if r == 0 && self.rev_cmd_idx.is_some() && self.saved_str.is_some() {
                    let saved = self.saved_str.take();
                    match saved {
                        Some(cmd) => {
                            self.rev_cmd_idx = None;
                            self.load(cmd, width);
                            CommandAction::Redraw
                        },
                        None => CommandAction::Nothing,
                    }
                } else {
                    CommandAction::Nothing
                }
            },
            KeyCode::Left => {
                if self.cursor_pos > 0 {
                    if self.terminal_x() == 1 && self.begin != 0 {
                        self.begin -= 1;
                        CommandAction::Draw
                    } else {
                        self.cursor_pos -= 1;
                        CommandAction::Move
                    }
                } else {
                    CommandAction::Nothing
                }
            },
            KeyCode::Right => {
                if self.cursor_pos < self.text.len() {
                    if self.terminal_x() + 1 == width {
                        self.begin += 1;
                        CommandAction::Draw
                    } else {
                        self.cursor_pos += 1;
                        CommandAction::Move
                    }
                } else {
                    CommandAction::Nothing
                }
            },
            KeyCode::Backspace => {
                if self.cursor_pos > 0 {
                    self.cursor_pos -= 1;
                    self.text.remove(self.cursor_pos);
                    CommandAction::Redraw
                } else {
                    CommandAction::Nothing
                }
            },
            KeyCode::Delete => {
                if self.cursor_pos < self.text.len() {
                    self.text.remove(self.cursor_pos);
                    CommandAction::Redraw
                } else {
                    CommandAction::Nothing
                }
            },
            KeyCode::Char(character) => {
                let w: usize = width as usize;
                if (self.begin == 0 && self.cursor_pos + 2 == w) || (self.begin != 0
                    && self.cursor_pos == self.text.len()) {
                    self.begin += 1;
                }
                self.text.insert(self.cursor_pos, character);
                self.cursor_pos += 1;
                CommandAction::Redraw
            },
            _ => CommandAction::Nothing,
        }
    }
}

/// Struct that represents fim's NormalMode context.
///
/// Analogous to vim's normal mode. This context always starts as the active context, and there
/// is always one instance of it at the bottom of the context stack.
pub struct NormalMode;

/// Struct that represents fim's InsertMode context, in which typed characters are inserted.
pub struct InsertMode;

/// Browsing back and forth in the history gives the typed line back: from a line that is not
/// taken from the history, Up shows the newest command of the history (nothing changes in the
/// text when the history is empty), and a Down right after it shows the typed line again and
/// leaves the history, so that Enter would then enter the typed line.
pub proof fn lemma_up_then_down(v: CommandModeView, width: int, stack: Seq<Seq<char>>)
    requires
        v.rev is None,
    ensures
        ({
            let up = command_step(v, KeyCode::Up, width, stack).0;
            let down = command_step(up, KeyCode::Down, width, stack).0;
            &&& up.text == (if stack.len() > 0 {
                stack.last()
            } else {
                v.text
            })
            &&& down.text == v.text
            &&& down.rev is None
            &&& command_step(down, KeyCode::Enter, width, stack).0.text == v.text
        }),
{
}

/// Delete removes the character under the cursor, and only it: the characters before the
/// cursor stay, those after it move one place to the left, and the cursor stays. So typing a
/// character, moving left onto it and deleting it gives the text and the cursor back (in a
/// line that is not scrolled, with room for the cursor); at the end of the text Delete
/// changes nothing.
pub proof fn lemma_delete_under_cursor(v: CommandModeView, c: char, width: int, stack: Seq<Seq<char>>)
    requires
        0 <= v.cursor <= v.text.len(),
    ensures
        ({
            let d = command_step(v, KeyCode::Delete, width, stack).0;
            &&& v.cursor < v.text.len() ==> {
                &&& d.text.len() == v.text.len() - 1
                &&& forall|i: int| 0 <= i < v.cursor ==> #[trigger] d.text[i] == v.text[i]
                &&& forall|i: int| v.cursor <= i < d.text.len() ==> #[trigger] d.text[i] == v.text[i + 1]
                &&& d.cursor == v.cursor
            }
            &&& v.cursor == v.text.len() ==> d.text == v.text && d.cursor == v.cursor
        }),
        v.begin == 0 && v.cursor + 2 < width ==> ({
            let typed = command_step(v, KeyCode::Char(c), width, stack).0;
            let left = command_step(typed, KeyCode::Left, width, stack).0;
            let deleted = command_step(left, KeyCode::Delete, width, stack).0;
            deleted.text == v.text && deleted.cursor == v.cursor
        }),
{
    if v.begin == 0 && v.cursor + 2 < width {
        let typed = command_step(v, KeyCode::Char(c), width, stack).0;
        assert(typed.text.remove(v.cursor) =~= v.text);
    }
}

/// Typing puts the character at the cursor and moves the cursor past it; Backspace removes the
/// character before the cursor and moves the cursor onto its place (nothing happens at the
/// start of the line); Left and Right never change the text, and in a line that is not
/// scrolled Left moves the cursor one character back.
pub proof fn lemma_edit_at_cursor(v: CommandModeView, c: char, width: int, stack: Seq<Seq<char>>)
    requires
        0 <= v.cursor <= v.text.len(),
    ensures
        ({
            let t = command_step(v, KeyCode::Char(c), width, stack).0;
            &&& t.text.len() == v.text.len() + 1
            &&& t.text[v.cursor] == c
            &&& forall|i: int| 0 <= i < v.cursor ==> #[trigger] t.text[i] == v.text[i]
            &&& forall|i: int| v.cursor <= i < v.text.len() ==> #[trigger] t.text[i + 1] == v.text[i]
            &&& t.cursor == v.cursor + 1
        }),
        ({
            let b = command_step(v, KeyCode::Backspace, width, stack).0;
            &&& v.cursor > 0 ==> {
                &&& b.text.len() == v.text.len() - 1
                &&& forall|i: int| 0 <= i < v.cursor - 1 ==> #[trigger] b.text[i] == v.text[i]
                &&& forall|i: int| v.cursor - 1 <= i < b.text.len() ==> #[trigger] b.text[i] == v.text[i + 1]
                &&& b.cursor == v.cursor - 1
            }
            &&& v.cursor == 0 ==> b.text == v.text && b.cursor == 0
        }),
        command_step(v, KeyCode::Left, width, stack).0.text == v.text,
        command_step(v, KeyCode::Right, width, stack).0.text == v.text,
        v.begin == 0 && v.cursor > 0 ==> command_step(v, KeyCode::Left, width, stack).0.cursor
            == v.cursor - 1,
{
}

/// Typing a character and then deleting it with Backspace gives the command line's text and
/// cursor back.
pub proof fn lemma_type_then_backspace(
    v: CommandModeView,
    c: char,
    width: int,
    stack: Seq<Seq<char>>,
)
    requires
        0 <= v.cursor <= v.text.len(),
    ensures
        ({
            let typed = command_step(v, KeyCode::Char(c), width, stack).0;
            let back = command_step(typed, KeyCode::Backspace, width, stack).0;
            back.text == v.text && back.cursor == v.cursor
        }),
{
    let typed = command_step(v, KeyCode::Char(c), width, stack).0;
    assert(typed.text.remove(v.cursor) =~= v.text);
}

} // verus!

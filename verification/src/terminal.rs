//! The state of the terminal device that the editor draws on: its size and the cursor.
//!
//! Moving the cursor here only records where it is; drawing and reading keys is done by the
//! program around the library.
use vstd::prelude::*;

verus! {

/// Struct that represents a 2D terminal size.
#[derive(Copy, Clone, Debug, PartialEq, Eq, Structural)]
pub struct Size {
    /// Length, horizontally.
    pub width: u16,
    /// Length, vertically.
    pub height: u16,
}

/// Struct that represents a 2D position on the terminal.
#[derive(Copy, Clone, Debug, PartialEq, Eq, Structural, Default)]
pub struct Position {
    /// Position, horizontally (this is actually a column number).
    pub x: u16,
    /// Position, vertically (this is actually a row number).
    pub y: u16,
}

/// Whether `p` lies on a screen of size `s` (the origin always counts, even on an empty
/// screen).
pub open spec fn on_screen(p: Position, s: Size) -> bool {
    (p.x < s.width || p.x == 0) && (p.y < s.height || p.y == 0)
}

/// `x - d`, or 0 when `d` is larger.
pub open spec fn sat_sub(x: u16, d: u16) -> u16 {
    if d > x {
        0
    } else {
        (x - d) as u16
    }
}

/// `x + d`, or `u16::MAX` when that is larger.
pub open spec fn sat_add(x: u16, d: u16) -> u16 {
    if x + d > u16::MAX {
        u16::MAX
    } else {
        (x + d) as u16
    }
}

/// Where the cursor ends up when it is sent to `(x, y)` from `p` on a screen of size `s`:
/// each coordinate moves only if it lies on the screen.
pub open spec fn moved_to(p: Position, s: Size, x: u16, y: u16) -> Position {
    Position { x: if x < s.width { x } else { p.x }, y: if y < s.height { y } else { p.y } }
}

/// What `save_cursor` leaves: the cursor pushed onto the saved positions, the cursor and
/// the size unchanged.
pub open spec fn cursor_saved(a: Terminal, b: Terminal) -> bool {
    &&& b.saved() == a.saved().push(a.cursor())
    &&& b.cursor() == a.cursor()
    &&& b.size_of() == a.size_of()
}

/// What `restore_cursor` leaves: the last saved position popped and made the cursor; with
/// no saved position, nothing changes.
pub open spec fn cursor_restored(a: Terminal, b: Terminal) -> bool {
    &&& b.size_of() == a.size_of()
    &&& if a.saved().len() == 0 {
        b.saved() == a.saved() && b.cursor() == a.cursor()
    } else {
        b.saved() == a.saved().drop_last() && b.cursor() == a.saved().last()
    }
}

/// A call on the terminal, as far as the saved positions are concerned.
#[derive(Copy, Clone, Debug, PartialEq, Eq, Structural)]
pub enum CursorCall {
    /// `save_cursor`.
    Save,
    /// `restore_cursor`.
    Restore,
    /// A call that moves the cursor and keeps the saved positions (`cursor_to` and the
    /// `cursor_*_by` moves).
    Move,
}

/// Whether the call `c` can leave the terminal `a` as `b`.
pub open spec fn cursor_call(a: Terminal, b: Terminal, c: CursorCall) -> bool {
    match c {
        CursorCall::Save => cursor_saved(a, b),
        CursorCall::Restore => cursor_restored(a, b),
        CursorCall::Move => b.saved() == a.saved() && b.size_of() == a.size_of(),
    }
}

/// Saves minus restores over the calls `cs`.
pub open spec fn save_depth(cs: Seq<CursorCall>) -> int
    decreases cs.len(),
{
    if cs.len() == 0 {
        0
    } else {
        save_depth(cs.drop_last()) + match cs.last() {
            CursorCall::Save => 1int,
            CursorCall::Restore => -1int,
            CursorCall::Move => 0int,
        }
    }
}

/// Whether the saves and restores of `cs` pair up: no prefix restores more than it saved,
/// and the whole restores as many as it saves.
pub open spec fn balanced(cs: Seq<CursorCall>) -> bool {
    &&& save_depth(cs) == 0
    &&& forall|k: int| 0 <= k <= cs.len() ==> save_depth(#[trigger] cs.take(k)) >= 0
}

/// Struct to represent the terminal the program is displayed in: its size, the cursor, and
/// the saved cursor positions.
pub struct Terminal {
    size: Size,
    cursor_pos: Position,
    cursor_stack: Vec<Position>,
}

impl Terminal {
    /// The terminal's size.
    pub closed spec fn size_of(self) -> Size {
        self.size
    }

    /// The cursor's position.
    pub closed spec fn cursor(self) -> Position {
        self.cursor_pos
    }

    /// The saved cursor positions, the most recent last.
    pub closed spec fn saved(self) -> Seq<Position> {
        self.cursor_stack@
    }

    /// The cursor and every saved position lie on the screen.
    pub closed spec fn wf(self) -> bool {
        &&& on_screen(self.cursor_pos, self.size)
        &&& forall|i: int| 0 <= i < self.cursor_stack@.len() ==> on_screen(#[trigger] self.cursor_stack@[i], self.size)
    }

    /// A terminal of the given size, with the cursor at the origin and no saved position.
    pub fn new(width: u16, height: u16) -> (t: Terminal)
        ensures
            t.wf(),
            t.size_of() == (Size { width, height }),
            t.cursor() == (Position { x: 0, y: 0 }),
            t.saved() == Seq::<Position>::empty(),
    {
        Terminal {
            size: Size { width, height },
            cursor_pos: Position { x: 0, y: 0 },
            cursor_stack: Vec::new(),
        }
    }

    fn saturating_sub(x: u16, d: u16) -> (r: u16)
        ensures
            r == sat_sub(x, d),
    {
        if d > x {
            0
        } else {
            x - d
        }
    }

    fn set_x(&mut self, x: u16)
        requires
            old(self).wf(),
        ensures
            final(self).wf(),
            final(self).cursor() == (Position { x: if x < old(self).size_of().width { x } else { old(self).cursor().x }, ..old(self).cursor() }),
            final(self).size_of() == old(self).size_of(),
            final(self).saved() == old(self).saved(),
    {
        if x < self.size.width {
            self.cursor_pos.x = x;
        }
    }

    fn set_y(&mut self, y: u16)
        requires
            old(self).wf(),
        ensures
            final(self).wf(),
            final(self).cursor() == (Position { y: if y < old(self).size_of().height { y } else { old(self).cursor().y }, ..old(self).cursor() }),
            final(self).size_of() == old(self).size_of(),
            final(self).saved() == old(self).saved(),
    {
        if y < self.size.height {
            self.cursor_pos.y = y;
        }
    }

    /// Return a copy of this terminal's size.
    pub fn size(&self) -> (s: Size)
        ensures
            s == self.size_of(),
    {
        self.size
    }

    /// Return a reference to this terminal's current cursor position.
    pub fn cursor_pos(&self) -> (p: &Position)
        ensures
            *p == self.cursor(),
    {
        &self.cursor_pos
    }

    /// Save the position of the cursor.
    pub fn save_cursor(&mut self)
        requires
            old(self).wf(),
        ensures
            final(self).wf(),
            cursor_saved(*old(self), *final(self)),
    {
        self.cursor_stack.push(self.cursor_pos);
    }

    /// Restore the position of the cursor last saved, if there is one.
    pub fn restore_cursor(&mut self)
        requires
            old(self).wf(),
        ensures
            final(self).wf(),
            cursor_restored(*old(self), *final(self)),
    {
        if let Some(pos) = self.cursor_stack.pop() {
            self.cursor_pos = pos;
        }
    }

    /// Set the cursor position to a location; a coordinate that lies off the screen is not
    /// changed.
    pub fn cursor_to(&mut self, x: u16, y: u16) -> (r: &mut Self)
        requires
            old(self).wf(),
        ensures
            r.wf(),
            r.cursor() == moved_to(old(self).cursor(), old(self).size_of(), x, y),
            r.size_of() == old(self).size_of(),
            r.saved() == old(self).saved(),
            *final(self) == *final(r),
    {
        self.set_x(x);
        self.set_y(y);
        self
    }

    /// Move the cursor left some amount, if able.
    pub fn cursor_left_by(&mut self, d_x: u16) -> (r: &mut Self)
        requires
            old(self).wf(),
        ensures
            r.wf(),
            r.cursor() == moved_to(old(self).cursor(), old(self).size_of(), sat_sub(old(self).cursor().x, d_x), old(self).cursor().y),
            r.size_of() == old(self).size_of(),
            r.saved() == old(self).saved(),
            *final(self) == *final(r),
    {
        let x = Self::saturating_sub(self.cursor_pos.x, d_x);
        let y = self.cursor_pos.y;
        self.cursor_to(x, y)
    }

    /// Move the cursor right some amount, if able.
    pub fn cursor_right_by(&mut self, d_x: u16) -> (r: &mut Self)
        requires
            old(self).wf(),
        ensures
            r.wf(),
            r.cursor() == moved_to(old(self).cursor(), old(self).size_of(), sat_add(old(self).cursor().x, d_x), old(self).cursor().y),
            r.size_of() == old(self).size_of(),
            r.saved() == old(self).saved(),
            *final(self) == *final(r),
    {
        let x = self.cursor_pos.x.saturating_add(d_x);
        let y = self.cursor_pos.y;
        self.cursor_to(x, y)
    }

    /// Move the cursor up some amount, if able.
    pub fn cursor_up_by(&mut self, d_y: u16) -> (r: &mut Self)
        requires
            old(self).wf(),
        ensures
            r.wf(),
            r.cursor() == moved_to(old(self).cursor(), old(self).size_of(), old(self).cursor().x, sat_sub(old(self).cursor().y, d_y)),
            r.size_of() == old(self).size_of(),
            r.saved() == old(self).saved(),
            *final(self) == *final(r),
    {
        let x = self.cursor_pos.x;
        let y = Self::saturating_sub(self.cursor_pos.y, d_y);
        self.cursor_to(x, y)
    }

    /// Move the cursor down some amount, if able.
    pub fn cursor_down_by(&mut self, d_y: u16) -> (r: &mut Self)
        requires
            old(self).wf(),
        ensures
            r.wf(),
            r.cursor() == moved_to(old(self).cursor(), old(self).size_of(), old(self).cursor().x, sat_add(old(self).cursor().y, d_y)),
            r.size_of() == old(self).size_of(),
            r.saved() == old(self).saved(),
            *final(self) == *final(r),
    {
        let x = self.cursor_pos.x;
        let y = self.cursor_pos.y.saturating_add(d_y);
        self.cursor_to(x, y)
    }
}

/// Restoring right after saving gives the cursor back and leaves the saved positions as they
/// were: a save pushes the cursor, a restore pops it.
pub proof fn lemma_save_then_restore(cursor: Position, saved: Seq<Position>)
    ensures
        saved.push(cursor).len() > 0,
        saved.push(cursor).last() == cursor,
        saved.push(cursor).drop_last() == saved,
{
    assert(saved.push(cursor).drop_last() =~= saved);
}

/// Within a save and its restore, with balanced calls in between, the saved positions below
/// the one just saved stay in place and the stack is deeper by the saves not yet restored.
proof fn lemma_inner_prefix(ts: Seq<Terminal>, cs: Seq<CursorCall>, k: int)
    requires
        ts.len() == cs.len() + 1,
        cs.len() >= 2,
        cs[0] == CursorCall::Save,
        balanced(cs.subrange(1, cs.len() - 1)),
        forall|i: int| 0 <= i < cs.len() ==> cursor_call(#[trigger] ts[i], ts[i + 1], cs[i]),
        1 <= k <= cs.len() - 1,
    ensures
        ts[k].saved().len() == ts[0].saved().len() + 1 + save_depth(
            cs.subrange(1, cs.len() - 1).take(k - 1),
        ),
        ts[k].saved().take(ts[0].saved().len() + 1int) == ts[0].saved().push(ts[0].cursor()),
    decreases k,
{
    let inner = cs.subrange(1, cs.len() - 1);
    let n0: int = ts[0].saved().len() + 1int;
    if k == 1 {
        assert(cursor_call(ts[0], ts[1], cs[0]));
        assert(inner.take(0) =~= Seq::<CursorCall>::empty());
        assert(ts[1].saved().take(n0) =~= ts[1].saved());
    } else {
        lemma_inner_prefix(ts, cs, k - 1);
        let a = ts[k - 1];
        let b = ts[k];
        assert(cursor_call(a, b, cs[k - 1]));
        assert(inner.take(k - 1).drop_last() =~= inner.take(k - 2));
        assert(inner.take(k - 1).last() == cs[k - 1]);
        assert(save_depth(inner.take(k - 1)) >= 0);
        match cs[k - 1] {
            CursorCall::Save => {
                assert(b.saved().take(n0) =~= a.saved().take(n0));
            },
            CursorCall::Restore => {
                assert(a.saved().len() >= n0 + 1);
                assert(b.saved().take(n0) =~= a.saved().take(n0));
            },
            CursorCall::Move => {},
        }
    }
}

/// A restore undoes its save: after `save_cursor`, any calls in which saves and restores pair
/// up, and `restore_cursor`, the cursor is where it was before the save and the saved
/// positions are as they were. `ts[i + 1]` is the terminal after the call `cs[i]` on `ts[i]`.
pub proof fn lemma_balanced_restore(ts: Seq<Terminal>, cs: Seq<CursorCall>)
    requires
        ts.len() == cs.len() + 1,
        cs.len() >= 2,
        cs[0] == CursorCall::Save,
        cs.last() == CursorCall::Restore,
        balanced(cs.subrange(1, cs.len() - 1)),
        forall|i: int| 0 <= i < cs.len() ==> cursor_call(#[trigger] ts[i], ts[i + 1], cs[i]),
    ensures
        ts.last().cursor() == ts[0].cursor(),
        ts.last().saved() == ts[0].saved(),
{
    let m = cs.len() - 1;
    let inner = cs.subrange(1, cs.len() - 1);
    lemma_inner_prefix(ts, cs, m);
    assert(inner.take(m - 1) =~= inner);
    let a = ts[m];
    let n0: int = ts[0].saved().len() + 1int;
    assert(a.saved() =~= a.saved().take(n0));
    assert(cursor_call(ts[m], ts[m + 1], cs[m]));
    assert(ts[0].saved().push(ts[0].cursor()).drop_last() =~= ts[0].saved());
}

/// Moving the cursor keeps it on the screen: wherever it is sent, it ends up on the screen if
/// it started there.
pub proof fn lemma_moved_on_screen(p: Position, s: Size, x: u16, y: u16)
    requires
        on_screen(p, s),
    ensures
        on_screen(moved_to(p, s, x, y), s),
{
}

} // verus!

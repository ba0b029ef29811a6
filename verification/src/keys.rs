//! Key presses as the editor sees them: a key code plus the held modifiers.
use vstd::prelude::*;

verus! {

/// A key on the keyboard.
#[derive(Clone, Copy, Debug, PartialEq, Eq, Hash, Structural)]
pub enum KeyCode {
    /// Backspace key.
    Backspace,
    /// Enter key.
    Enter,
    /// Left arrow key.
    Left,
    /// Right arrow key.
    Right,
    /// Up arrow key.
    Up,
    /// Down arrow key.
    Down,
    /// Home key.
    Home,
    /// End key.
    End,
    /// Page up key.
    PageUp,
    /// Page down key.
    PageDown,
    /// Tab key.
    Tab,
    /// Shift + Tab key.
    BackTab,
    /// Delete key.
    Delete,
    /// Insert key.
    Insert,
    /// A function key, `F(1)` to `F(12)` and beyond.
    F(u8),
    /// A character key.
    Char(char),
    /// The null key.
    Null,
    /// Escape key.
    Esc,
    /// Caps lock key.
    CapsLock,
    /// Scroll lock key.
    ScrollLock,
    /// Num lock key.
    NumLock,
    /// Print screen key.
    PrintScreen,
    /// Pause key.
    Pause,
    /// Menu key.
    Menu,
    /// The keypad begin key.
    KeypadBegin,
    /// A media or modifier key that the editor does not distinguish.
    Other,
}

/// The modifier keys (Shift, Control, Alt) held during a key press: one variant for each
/// subset of the three.
#[allow(non_camel_case_types)]
#[derive(Clone, Copy, Debug, PartialEq, Eq, Hash, Structural)]
pub enum KeyModifiers {
    /// No modifier held.
    NONE,
    /// Shift held.
    SHIFT,
    /// Control held.
    CONTROL,
    /// Alt held.
    ALT,
    /// Shift and Control held.
    SHIFT_CONTROL,
    /// Shift and Alt held.
    SHIFT_ALT,
    /// Control and Alt held.
    CONTROL_ALT,
    /// Shift, Control and Alt held.
    SHIFT_CONTROL_ALT,
}

impl KeyModifiers {
    /// Whether Shift is held.
    pub open spec fn has_shift(self) -> bool {
        self is SHIFT || self is SHIFT_CONTROL || self is SHIFT_ALT || self is SHIFT_CONTROL_ALT
    }

    /// Whether Control is held.
    pub open spec fn has_control(self) -> bool {
        self is CONTROL || self is SHIFT_CONTROL || self is CONTROL_ALT || self is SHIFT_CONTROL_ALT
    }

    /// Whether Alt is held.
    pub open spec fn has_alt(self) -> bool {
        self is ALT || self is SHIFT_ALT || self is CONTROL_ALT || self is SHIFT_CONTROL_ALT
    }

    /// Two sets are equal exactly when they hold the same modifiers.
    pub proof fn lemma_flags_determine(a: KeyModifiers, b: KeyModifiers)
        requires
            a.has_shift() == b.has_shift(),
            a.has_control() == b.has_control(),
            a.has_alt() == b.has_alt(),
        ensures
            a == b,
    {
    }

    /// The set with no modifier.
    pub fn empty() -> (m: KeyModifiers)
        ensures
            m == KeyModifiers::NONE,
    {
        KeyModifiers::NONE
    }

    /// Builds a set from the three flags.
    pub fn from_flags(shift: bool, control: bool, alt: bool) -> (m: KeyModifiers)
        ensures
            m.has_shift() == shift,
            m.has_control() == control,
            m.has_alt() == alt,
    {
        match (shift, control, alt) {
            (false, false, false) => KeyModifiers::NONE,
            (true, false, false) => KeyModifiers::SHIFT,
            (false, true, false) => KeyModifiers::CONTROL,
            (false, false, true) => KeyModifiers::ALT,
            (true, true, false) => KeyModifiers::SHIFT_CONTROL,
            (true, false, true) => KeyModifiers::SHIFT_ALT,
            (false, true, true) => KeyModifiers::CONTROL_ALT,
            (true, true, true) => KeyModifiers::SHIFT_CONTROL_ALT,
        }
    }

    /// Whether Shift is held.
    pub fn shift(&self) -> (b: bool)
        ensures
            b == self.has_shift(),
    {
        match self {
            KeyModifiers::SHIFT | KeyModifiers::SHIFT_CONTROL | KeyModifiers::SHIFT_ALT
            | KeyModifiers::SHIFT_CONTROL_ALT => true,
            _ => false,
        }
    }

    /// Whether Control is held.
    pub fn control(&self) -> (b: bool)
        ensures
            b == self.has_control(),
    {
        match self {
            KeyModifiers::CONTROL | KeyModifiers::SHIFT_CONTROL | KeyModifiers::CONTROL_ALT
            | KeyModifiers::SHIFT_CONTROL_ALT => true,
            _ => false,
        }
    }

    /// Whether Alt is held.
    pub fn alt(&self) -> (b: bool)
        ensures
            b == self.has_alt(),
    {
        match self {
            KeyModifiers::ALT | KeyModifiers::SHIFT_ALT | KeyModifiers::CONTROL_ALT
            | KeyModifiers::SHIFT_CONTROL_ALT => true,
            _ => false,
        }
    }

    /// The union of two sets of modifiers.
    pub fn union(self, other: KeyModifiers) -> (m: KeyModifiers)
        ensures
            m.has_shift() == (self.has_shift() || other.has_shift()),
            m.has_control() == (self.has_control() || other.has_control()),
            m.has_alt() == (self.has_alt() || other.has_alt()),
    {
        KeyModifiers::from_flags(
            self.shift() || other.shift(),
            self.control() || other.control(),
            self.alt() || other.alt(),
        )
    }

    /// Adds the modifiers of `other` to this set.
    pub fn insert(&mut self, other: KeyModifiers)
        ensures
            final(self).has_shift() == (old(self).has_shift() || other.has_shift()),
            final(self).has_control() == (old(self).has_control() || other.has_control()),
            final(self).has_alt() == (old(self).has_alt() || other.has_alt()),
    {
        *self = self.union(other);
    }

    /// Removes the modifiers of `other` from this set.
    pub fn remove(&mut self, other: KeyModifiers)
        ensures
            final(self).has_shift() == (old(self).has_shift() && !other.has_shift()),
            final(self).has_control() == (old(self).has_control() && !other.has_control()),
            final(self).has_alt() == (old(self).has_alt() && !other.has_alt()),
    {
        *self = KeyModifiers::from_flags(
            self.shift() && !other.shift(),
            self.control() && !other.control(),
            self.alt() && !other.alt(),
        );
    }
}

/// A key press: a key code and the modifiers held with it.
#[derive(Clone, Copy, Debug, PartialEq, Eq, Hash, Structural)]
pub struct KeyEvent {
    /// The key pressed.
    pub code: KeyCode,
    /// The modifiers held.
    pub modifiers: KeyModifiers,
}

impl KeyEvent {
    /// Builds a key press.
    pub fn new(code: KeyCode, modifiers: KeyModifiers) -> (e: KeyEvent)
        ensures
            e.code == code,
            e.modifiers == modifiers,
    {
        KeyEvent { code, modifiers }
    }
}

} // verus!

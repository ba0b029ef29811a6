//! The first form of the editor's option set: line numbering and keyboard layout, built with
//! an [`OptionFactory`].
use crate::config::options::LayoutTypeView;
use vstd::prelude::*;

verus! {

/// Enum that represents the different types of line numbers fim can use.
#[derive(Debug, Copy, Clone, PartialEq, Eq, Structural)]
pub enum LineNumbers {
    /// No line numbering.
    Off,
    /// Absolute line numbering.
    On,
    /// Relative line numbering.
    Relative,
}

/// Enum that represents different keyboard layouts.
///
/// There are three built-in layouts: QWERTY, Dvorak, and Colemak. Users can also define their
/// own layouts, providing a string to identify it.
#[derive(Debug, Clone)]
pub enum LayoutType {
    /// The standard keyboard layout.
    Qwerty,
    /// The Dvorak keyboard layout.
    Dvorak,
    /// The Colemak keyboard layout.
    Colemak,
    /// A user-defined keyboard layout.
    Custom {
        /// The name of the custom keyboard layout.
        name: String,
    },
}

impl View for LayoutType {
    type V = LayoutTypeView;

    open spec fn view(&self) -> LayoutTypeView {
        match self {
            LayoutType::Qwerty => LayoutTypeView::Qwerty,
            LayoutType::Dvorak => LayoutTypeView::Dvorak,
            LayoutType::Colemak => LayoutTypeView::Colemak,
            LayoutType::Custom { name } => LayoutTypeView::Custom(name@),
        }
    }
}

/// Struct that represent the collection of internal configuration options.
#[derive(Debug, Clone)]
pub struct Options {
    /// Type of line numbering to use.
    pub line_numbering: LineNumbers,
    /// Keyboard layout to use.
    pub layout: LayoutType,
}

impl View for Options {
    type V = (LineNumbers, LayoutTypeView);

    open spec fn view(&self) -> (LineNumbers, LayoutTypeView) {
        (self.line_numbering, self.layout@)
    }
}

/// The defaults are relative line numbering and the QWERTY layout.
impl Default for Options {
    fn default() -> (o: Self)
        ensures
            o@ == (LineNumbers::Relative, LayoutTypeView::Qwerty),
    {
        Options { line_numbering: LineNumbers::Relative, layout: LayoutType::Qwerty }
    }
}

/// Struct that creates an [`Options`] object.
pub struct OptionFactory {
    opt: Options,
}

impl OptionFactory {
    /// Create a new [`OptionFactory`]; the `Options` object begins with its default value.
    pub fn new() -> (f: Self)
        ensures
            f.peek_view() == (LineNumbers::Relative, LayoutTypeView::Qwerty),
    {
        OptionFactory { opt: Options::default() }
    }

    /// The `Options` object being created.
    pub closed spec fn peek_view(&self) -> (LineNumbers, LayoutTypeView) {
        self.opt@
    }

    /// Consume the `OptionFactory` and return the created `Options` object.
    pub fn options(self) -> (o: Options)
        ensures
            o@ == self.peek_view(),
    {
        self.opt
    }

    /// Return a reference to the `Options` object in the process of being created.
    pub fn peek(&self) -> (o: &Options)
        ensures
            o@ == self.peek_view(),
    {
        &self.opt
    }

    /// Set the `line_numbering` field of the `Options` object.
    pub fn set_line_numbering(&mut self, numbering: LineNumbers) -> (r: &mut Self)
        ensures
            r.peek_view() == (numbering, old(self).peek_view().1),
            *final(self) == *final(r),
    {
        self.opt.line_numbering = numbering;
        self
    }

    /// Set the `layout` field of the `Options` object.
    pub fn set_layout(&mut self, layout: LayoutType) -> (r: &mut Self)
        ensures
            r.peek_view() == (old(self).peek_view().0, layout@),
            *final(self) == *final(r),
    {
        self.opt.layout = layout;
        self
    }
}

} // verus!

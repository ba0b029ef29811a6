//! Internal configuration options and the parsing of option lines.
//!
//! There are three kinds of options: boolean, numeric and string. The user sets them in
//! configuration files with option lines, `set <OPTION_NAME> = <OPTION_VALUE>`.
use crate::text::{
    append_str, chars_of, find_char, first_index, lemma_first_index, starts_with, starts_with_chars,
    str_eq, string_of, subslice, trim, trim_chars,
};
use std::num::ParseIntError;
use std::str::FromStr;
use vstd::prelude::*;

verus! {

/// The error that std's integer parsing reports.
#[verifier::external_type_specification]
#[verifier::external_body]
pub struct ExParseIntError(ParseIntError);

/// Enum for containing errors that might occur in parsing option lines.
#[derive(Debug, PartialEq, Clone)]
pub enum OptionParseError {
    /// Did not find `set ` at the beginning of the line.
    NoSetPlusSpace,
    /// Did not find an `=`.
    NoEquals,
    /// Did not find an option value after an `=`.
    NoValueAfterEquals,
    /// Did not find a matching option in the [`Options`] object.
    NoMatchingOption {
        /// The option that the user requested.
        option: String,
    },
    /// Could not parse the value into the appropriate type.
    ValueParseError {
        /// The message from the parser.
        msg: String,
    },
}

/// Enum that represents the different types of line numbers fim can use.
///
/// String (enum) option: possible values are `Off`, `On`, and `Relative`.
#[derive(Debug, Copy, Clone, PartialEq, Eq, Structural)]
pub enum LineNumbers {
    /// No line numbering.
    Off,
    /// Absolute line numbering: each line is labeled with its line number.
    On,
    /// Relative line numbering: the line the cursor is on is labeled with its line number,
    /// all other lines with how many lines away they are from the current line.
    Relative,
}

/// Enum that represents the way fim should interpret tabs.
///
/// String (enum) option: possible values are `Tab` and `Spaces`.
#[derive(Debug, Copy, Clone, PartialEq, Eq, Structural)]
pub enum TabType {
    /// Use a tab character for new and existing tabs.
    Tab,
    /// Use spaces for new and existing tabs.
    Spaces,
}

/// Enum that represents different keyboard layouts.
///
/// There are three built-in layouts: QWERTY, Dvorak, and Colemak. Users can also define their
/// own layouts, providing a string to identify it. String option: possible values are
/// `Qwerty`, `Dvorak`, `Colemak`, or any other string (for a custom layout).
#[derive(Debug, Clone, PartialEq, Eq, Hash)]
pub enum LayoutType {
    /// The standard keyboard layout.
    Qwerty,
    /// The Dvorak keyboard layout.
    Dvorak,
    /// The Colemak keyboard layout.
    Colemak,
    /// A user-defined keyboard layout.
    Custom {
        /// The name of the custom keyboard layout.
        name: String,
    },
}

/// A [`LayoutType`] as a value.
pub enum LayoutTypeView {
    /// The standard keyboard layout.
    Qwerty,
    /// The Dvorak keyboard layout.
    Dvorak,
    /// The Colemak keyboard layout.
    Colemak,
    /// A user-defined keyboard layout with the given name.
    Custom(Seq<char>),
}

impl View for LayoutType {
    type V = LayoutTypeView;

    open spec fn view(&self) -> LayoutTypeView {
        match self {
            LayoutType::Qwerty => LayoutTypeView::Qwerty,
            LayoutType::Dvorak => LayoutTypeView::Dvorak,
            LayoutType::Colemak => LayoutTypeView::Colemak,
            LayoutType::Custom { name } => LayoutTypeView::Custom(name@),
        }
    }
}

/// Struct that represents the width of a tab character (when `tab_type` is `Tab`).
#[derive(Debug, Copy, Clone, PartialEq, Eq, Structural)]
pub struct TabWidth(pub i32);

/// Struct that represents the number of spaces to use for a tab (when `tab_type` is `Spaces`).
#[derive(Debug, Copy, Clone, PartialEq, Eq, Structural)]
pub struct TabSpaces(pub i32);

/// Struct that represent the collection of internal configuration options.
#[derive(Debug, Clone)]
pub struct Options {
    /// Type of line numbering to use; string (enum) option.
    pub line_numbering: LineNumbers,
    /// Keyboard layout to use; string option.
    pub layout: LayoutType,
    /// How to interpret new and existing tabs: as tab characters or as spaces.
    pub tab_type: TabType,
    /// Number of spaces to use for a tab (only when using spaces for tabs).
    pub tab_spaces: TabSpaces,
    /// Width of tab character (only when using tab for tabs).
    pub tab_width: TabWidth,
}

/// An [`Options`] object as a value.
pub struct OptionsView {
    /// Type of line numbering.
    pub line_numbering: LineNumbers,
    /// Keyboard layout.
    pub layout: LayoutTypeView,
    /// How tabs are interpreted.
    pub tab_type: TabType,
    /// Number of spaces for a tab.
    pub tab_spaces: i32,
    /// Width of a tab character.
    pub tab_width: i32,
}

impl View for Options {
    type V = OptionsView;

    open spec fn view(&self) -> OptionsView {
        OptionsView {
            line_numbering: self.line_numbering,
            layout: self.layout@,
            tab_type: self.tab_type,
            tab_spaces: self.tab_spaces.0,
            tab_width: self.tab_width.0,
        }
    }
}

/// The default options: relative line numbering, the QWERTY layout, and tabs as four spaces
/// (a tab character four columns wide).
pub open spec fn default_options() -> OptionsView {
    OptionsView {
        line_numbering: LineNumbers::Relative,
        layout: LayoutTypeView::Qwerty,
        tab_type: TabType::Spaces,
        tab_spaces: 4,
        tab_width: 4,
    }
}

impl Default for Options {
    fn default() -> (o: Self)
        ensures
            o@ == default_options(),
    {
        Options {
            line_numbering: LineNumbers::Relative,
            layout: LayoutType::Qwerty,
            tab_type: TabType::Spaces,
            tab_spaces: TabSpaces(4),
            tab_width: TabWidth(4),
        }
    }
}

/// Trait that represents a predicate to determine if a parsed `i32` is valid for a number
/// option.
pub trait Verifiable {
    /// Whether `x` is a valid value.
    spec fn accepts(x: i32) -> bool;

    /// Returns `Ok(())` if the passed `i32` is valid, and `Err(<str>)` otherwise, where `<str>`
    /// is an error message.
    fn verify(x: i32) -> (r: Result<(), String>)
        ensures
            r is Ok <==> Self::accepts(x),
    ;
}

/// The message of a number that is not positive.
pub open spec fn not_positive_message() -> Seq<char> {
    "number must be positive (i.e. not negative or zero)"@
}

impl Verifiable for TabWidth {
    open spec fn accepts(x: i32) -> bool {
        x > 0
    }

    fn verify(x: i32) -> (r: Result<(), String>)
        ensures
            r matches Err(m) ==> m@ == not_positive_message(),
    {
        if x > 0 {
            Ok(())
        } else {
            Err("number must be positive (i.e. not negative or zero)".to_owned())
        }
    }
}

impl Verifiable for TabSpaces {
    open spec fn accepts(x: i32) -> bool {
        x > 0
    }

    fn verify(x: i32) -> (r: Result<(), String>)
        ensures
            r matches Err(m) ==> m@ == not_positive_message(),
    {
        if x > 0 {
            Ok(())
        } else {
            Err("number must be positive (i.e. not negative or zero)".to_owned())
        }
    }
}

/// Enum for containing errors that might occur in parsing number options.
#[derive(Debug, PartialEq)]
pub enum NumberParseError {
    /// The string couldn't be parsed into an integer.
    ParseIntError(ParseIntError),
    /// The integer did not pass verification; holds the message from [`Verifiable::verify`].
    VerificationFailed(String),
}

impl From<ParseIntError> for NumberParseError {
    fn from(e: ParseIntError) -> (r: Self) {
        NumberParseError::ParseIntError(e)
    }
}

impl vstd::std_specs::convert::FromSpecImpl<ParseIntError> for NumberParseError {
    open spec fn obeys_from_spec() -> bool {
        true
    }

    open spec fn from_spec(v: ParseIntError) -> Self {
        NumberParseError::ParseIntError(v)
    }
}

impl From<String> for NumberParseError {
    fn from(e: String) -> (r: Self) {
        NumberParseError::VerificationFailed(e)
    }
}

impl vstd::std_specs::convert::FromSpecImpl<String> for NumberParseError {
    open spec fn obeys_from_spec() -> bool {
        true
    }

    open spec fn from_spec(v: String) -> Self {
        NumberParseError::VerificationFailed(v)
    }
}

/// Whether `c` is a decimal digit.
pub open spec fn is_digit(c: char) -> bool {
    '0' <= c <= '9'
}

/// The number that the decimal digits `s` spell.
pub open spec fn digits_value(s: Seq<char>) -> int
    decreases s.len(),
{
    if s.len() == 0 {
        0
    } else {
        digits_value(s.drop_last()) * 10 + (s.last() as int - '0' as int)
    }
}

/// Whether the text is negative (a leading `-`), and its digits (after an optional sign).
pub open spec fn sign_and_digits(s: Seq<char>) -> (bool, Seq<char>) {
    if s.len() > 0 && s[0] == '-' {
        (true, s.drop_first())
    } else if s.len() > 0 && s[0] == '+' {
        (false, s.drop_first())
    } else {
        (false, s)
    }
}

/// The integer that the text `s` (an optional sign, then digits) denotes.
pub open spec fn int_text_value(s: Seq<char>) -> int {
    let (neg, d) = sign_and_digits(s);
    if neg {
        -digits_value(d)
    } else {
        digits_value(d)
    }
}

/// Whether `s` is the text of an `i32`: an optional `+` or `-` sign followed by at least one
/// decimal digit and nothing else, denoting a number in the range of `i32`.
pub open spec fn is_i32_text(s: Seq<char>) -> bool {
    let (neg, d) = sign_and_digits(s);
    &&& d.len() > 0
    &&& forall|i: int| 0 <= i < d.len() ==> is_digit(#[trigger] d[i])
    &&& i32::MIN <= int_text_value(s) <= i32::MAX
}

/// Parses a decimal `i32` (std's `str::parse::<i32>`). std documents the accepted text as an
/// optional `+` or `-` sign followed by digits only, with the number in range; this contract
/// states that and the value. Of the error it states nothing.
#[verifier::external_body]
fn parse_i32(s: &str) -> (r: Result<i32, ParseIntError>)
    ensures
        r is Ok <==> is_i32_text(s@),
        r matches Ok(v) ==> v == int_text_value(s@),
{
    s.parse::<i32>()
}

/// The message of a value that does not name a variant of the enum `name`.
pub open spec fn enum_parse_error(s: Seq<char>, name: Seq<char>) -> Seq<char> {
    "could not parse "@ + s + " into "@ + name
}

fn enum_error(s: &str, name: &str) -> (m: String)
    ensures
        m@ == enum_parse_error(s@, name@),
{
    let mut m = "could not parse ".to_owned();
    append_str(&mut m, s);
    append_str(&mut m, " into ");
    append_str(&mut m, name);
    m
}

/// The line numbering that `s` names.
pub open spec fn line_numbers_of(s: Seq<char>) -> Option<LineNumbers> {
    if s == "Off"@ {
        Some(LineNumbers::Off)
    } else if s == "On"@ {
        Some(LineNumbers::On)
    } else if s == "Relative"@ {
        Some(LineNumbers::Relative)
    } else {
        None
    }
}

impl LineNumbers {
    /// Parses the name of a variant; the error message names the text and the enum.
    pub fn parse(s: &str) -> (r: Result<LineNumbers, String>)
        ensures
            match line_numbers_of(s@) {
                Some(v) => r == Ok::<LineNumbers, String>(v),
                None => r matches Err(m) && m@ == enum_parse_error(s@, "LineNumbers"@),
            },
    {
        if str_eq(s, "Off") {
            Ok(LineNumbers::Off)
        } else if str_eq(s, "On") {
            Ok(LineNumbers::On)
        } else if str_eq(s, "Relative") {
            Ok(LineNumbers::Relative)
        } else {
            Err(enum_error(s, "LineNumbers"))
        }
    }
}

impl FromStr for LineNumbers {
    type Err = String;

    fn from_str(s: &str) -> (r: Result<Self, Self::Err>)
        ensures
            match line_numbers_of(s@) {
                Some(v) => r == Ok::<LineNumbers, String>(v),
                None => r matches Err(m) && m@ == enum_parse_error(s@, "LineNumbers"@),
            },
    {
        LineNumbers::parse(s)
    }
}

/// The tab type that `s` names.
pub open spec fn tab_type_of(s: Seq<char>) -> Option<TabType> {
    if s == "Tab"@ {
        Some(TabType::Tab)
    } else if s == "Spaces"@ {
        Some(TabType::Spaces)
    } else {
        None
    }
}

impl TabType {
    /// Parses the name of a variant; the error message names the text and the enum.
    pub fn parse(s: &str) -> (r: Result<TabType, String>)
        ensures
            match tab_type_of(s@) {
                Some(v) => r == Ok::<TabType, String>(v),
                None => r matches Err(m) && m@ == enum_parse_error(s@, "TabType"@),
            },
    {
        if str_eq(s, "Tab") {
            Ok(TabType::Tab)
        } else if str_eq(s, "Spaces") {
            Ok(TabType::Spaces)
        } else {
            Err(enum_error(s, "TabType"))
        }
    }
}

impl FromStr for TabType {
    type Err = String;

    fn from_str(s: &str) -> (r: Result<Self, Self::Err>)
        ensures
            match tab_type_of(s@) {
                Some(v) => r == Ok::<TabType, String>(v),
                None => r matches Err(m) && m@ == enum_parse_error(s@, "TabType"@),
            },
    {
        TabType::parse(s)
    }
}

/// The layout that `s` names: a built-in one, or else a custom layout of that name.
pub open spec fn layout_type_of(s: Seq<char>) -> LayoutTypeView {
    if s == "Qwerty"@ {
        LayoutTypeView::Qwerty
    } else if s == "Dvorak"@ {
        LayoutTypeView::Dvorak
    } else if s == "Colemak"@ {
        LayoutTypeView::Colemak
    } else {
        LayoutTypeView::Custom(s)
    }
}

impl LayoutType {
    /// The layout that `s` names; parsing never fails.
    pub fn parse(s: &str) -> (r: LayoutType)
        ensures
            r@ == layout_type_of(s@),
    {
        if str_eq(s, "Qwerty") {
            LayoutType::Qwerty
        } else if str_eq(s, "Dvorak") {
            LayoutType::Dvorak
        } else if str_eq(s, "Colemak") {
            LayoutType::Colemak
        } else {
            LayoutType::Custom { name: s.to_owned() }
        }
    }
}

impl FromStr for LayoutType {
    type Err = std::convert::Infallible;

    fn from_str(s: &str) -> (r: Result<Self, Self::Err>)
        ensures
            r matches Ok(l) && l@ == layout_type_of(s@),
    {
        Ok(LayoutType::parse(s))
    }
}

impl TabWidth {
    /// Parses a decimal `i32` into a tab width.
    pub fn parse(s: &str) -> (r: Result<TabWidth, ParseIntError>)
        ensures
            r is Ok <==> is_i32_text(s@),
            r matches Ok(t) ==> t.0 == int_text_value(s@),
    {
        match parse_i32(s) {
            Ok(i) => Ok(TabWidth(i)),
            Err(e) => Err(e),
        }
    }
}

impl FromStr for TabWidth {
    type Err = ParseIntError;

    fn from_str(s: &str) -> (r: Result<Self, Self::Err>)
        ensures
            r is Ok <==> is_i32_text(s@),
            r matches Ok(t) ==> t.0 == int_text_value(s@),
    {
        TabWidth::parse(s)
    }
}

impl From<i32> for TabWidth {
    fn from(t: i32) -> (r: Self) {
        TabWidth(t)
    }
}

impl vstd::std_specs::convert::FromSpecImpl<i32> for TabWidth {
    open spec fn obeys_from_spec() -> bool {
        true
    }

    open spec fn from_spec(v: i32) -> Self {
        TabWidth(v)
    }
}

impl From<TabWidth> for i32 {
    fn from(t: TabWidth) -> (r: Self) {
        t.0
    }
}

impl vstd::std_specs::convert::FromSpecImpl<TabWidth> for i32 {
    open spec fn obeys_from_spec() -> bool {
        true
    }

    open spec fn from_spec(v: TabWidth) -> Self {
        v.0
    }
}

impl TabSpaces {
    /// Parses a decimal `i32` into a number of spaces.
    pub fn parse(s: &str) -> (r: Result<TabSpaces, ParseIntError>)
        ensures
            r is Ok <==> is_i32_text(s@),
            r matches Ok(t) ==> t.0 == int_text_value(s@),
    {
        match parse_i32(s) {
            Ok(i) => Ok(TabSpaces(i)),
            Err(e) => Err(e),
        }
    }
}

impl FromStr for TabSpaces {
    type Err = ParseIntError;

    fn from_str(s: &str) -> (r: Result<Self, Self::Err>)
        ensures
            r is Ok <==> is_i32_text(s@),
            r matches Ok(t) ==> t.0 == int_text_value(s@),
    {
        TabSpaces::parse(s)
    }
}

impl From<i32> for TabSpaces {
    fn from(t: i32) -> (r: Self) {
        TabSpaces(t)
    }
}

impl vstd::std_specs::convert::FromSpecImpl<i32> for TabSpaces {
    open spec fn obeys_from_spec() -> bool {
        true
    }

    open spec fn from_spec(v: i32) -> Self {
        TabSpaces(v)
    }
}

impl From<TabSpaces> for i32 {
    fn from(t: TabSpaces) -> (r: Self) {
        t.0
    }
}

impl vstd::std_specs::convert::FromSpecImpl<TabSpaces> for i32 {
    open spec fn obeys_from_spec() -> bool {
        true
    }

    open spec fn from_spec(v: TabSpaces) -> Self {
        v.0
    }
}

/// The option name and value of an option line, `set <name> = <value>`: the name is what
/// stands between `set ` and the first `=`, the value what follows that `=`, both trimmed;
/// `None` when the line is not of that form or the value is empty.
pub open spec fn option_line(s: Seq<char>) -> Option<(Seq<char>, Seq<char>)> {
    if !starts_with(s, "set "@) {
        None
    } else {
        let rest = s.skip(4);
        let i = first_index(rest, '=');
        if i >= rest.len() {
            None
        } else if trim(rest.skip(i + 1)).len() == 0 {
            None
        } else {
            Some((trim(rest.take(i)), trim(rest.skip(i + 1))))
        }
    }
}

/// The error of a line that [`option_line`] does not accept.
pub open spec fn option_line_error(s: Seq<char>) -> OptionParseError {
    if !starts_with(s, "set "@) {
        OptionParseError::NoSetPlusSpace
    } else if first_index(s.skip(4), '=') >= s.skip(4).len() {
        OptionParseError::NoEquals
    } else {
        OptionParseError::NoValueAfterEquals
    }
}

/// Splits an option line into the option's name and value.
pub fn extract_opt_val(s: &str) -> (r: Result<(String, String), OptionParseError>)
    ensures
        r is Ok <==> option_line(s@) is Some,
        r matches Ok((n, v)) ==> option_line(s@) == Some((n@, v@)),
        r matches Err(e) ==> e == option_line_error(s@),
{
    let v = chars_of(s);
    let prefix = chars_of("set ");
    proof {
        reveal_strlit("set ");
    }
    if !starts_with_chars(v.as_slice(), prefix.as_slice()) {
        return Err(OptionParseError::NoSetPlusSpace);
    }
    let rest = subslice(v.as_slice(), 4, v.len());
    assert(rest@ =~= s@.skip(4));
    let i = find_char(rest.as_slice(), '=', 0);
    assert(rest@.skip(0) =~= rest@);
    if i >= rest.len() {
        return Err(OptionParseError::NoEquals);
    }
    let name = trim_chars(subslice(rest.as_slice(), 0, i).as_slice());
    let value = trim_chars(subslice(rest.as_slice(), i + 1, rest.len()).as_slice());
    assert(rest@.subrange(0, i as int) =~= rest@.take(i as int));
    assert(rest@.subrange(i + 1, rest@.len() as int) =~= rest@.skip(i + 1));
    if value.len() == 0 {
        return Err(OptionParseError::NoValueAfterEquals);
    }
    Ok((string_of(name.as_slice()), string_of(value.as_slice())))
}

/// What setting an option to a value does to `o`: the new options, or the message of a value
/// that does not parse or does not pass [`Verifiable::verify`] (a number option must be
/// positive), or `None` where no option has that name.
pub open spec fn set_option_spec(o: OptionsView, name: Seq<char>, value: Seq<char>) -> Option<
    Result<OptionsView, Seq<char>>,
> {
    if name == "line_numbering"@ {
        Some(
            match line_numbers_of(value) {
                Some(v) => Ok(OptionsView { line_numbering: v, ..o }),
                None => Err(enum_parse_error(value, "LineNumbers"@)),
            },
        )
    } else if name == "layout"@ {
        Some(Ok(OptionsView { layout: layout_type_of(value), ..o }))
    } else if name == "tab_type"@ {
        Some(
            match tab_type_of(value) {
                Some(v) => Ok(OptionsView { tab_type: v, ..o }),
                None => Err(enum_parse_error(value, "TabType"@)),
            },
        )
    } else if name == "tab_spaces"@ {
        Some(
            if !is_i32_text(value) {
                Err(Seq::empty())
            } else if int_text_value(value) <= 0 {
                Err(not_positive_message())
            } else {
                Ok(OptionsView { tab_spaces: int_text_value(value) as i32, ..o })
            },
        )
    } else if name == "tab_width"@ {
        Some(
            if !is_i32_text(value) {
                Err(Seq::empty())
            } else if int_text_value(value) <= 0 {
                Err(not_positive_message())
            } else {
                Ok(OptionsView { tab_width: int_text_value(value) as i32, ..o })
            },
        )
    } else {
        None
    }
}

/// Whether setting the option named `name` to `value` on `o` gives `new` and the result `r`.
/// Of a number that does not parse, the message (std's) is not stated.
pub open spec fn set_option_outcome(
    o: OptionsView,
    name: Seq<char>,
    value: Seq<char>,
    new: OptionsView,
    r: Result<(), OptionParseError>,
) -> bool {
    match set_option_spec(o, name, value) {
        None => new == o && (r matches Err(OptionParseError::NoMatchingOption { option }) && option@
            == name),
        Some(Ok(n)) => new == n && r is Ok,
        Some(Err(m)) => new == o && (r matches Err(OptionParseError::ValueParseError { msg }) && (
        m.len() > 0 ==> msg@ == m)),
    }
}

impl Options {
    /// Read a single option/value pair from an option line, and set the associated value.
    ///
    /// On an error the options are left as they were.
    pub fn set_option(&mut self, s: &str) -> (r: Result<(), OptionParseError>)
        ensures
            match option_line(s@) {
                None => final(self)@ == old(self)@ && r == Err::<(), OptionParseError>(
                    option_line_error(s@),
                ),
                Some((name, value)) => set_option_outcome(old(self)@, name, value, final(self)@, r),
            },
    {
        let (name, value) = match extract_opt_val(s) {
            Ok(p) => p,
            Err(e) => return Err(e),
        };
        let n = name.as_str();
        let v = value.as_str();
        if str_eq(n, "line_numbering") {
            match LineNumbers::parse(v) {
                Ok(x) => {
                    self.line_numbering = x;
                    Ok(())
                },
                Err(msg) => Err(OptionParseError::ValueParseError { msg }),
            }
        } else if str_eq(n, "layout") {
            self.layout = LayoutType::parse(v);
            Ok(())
        } else if str_eq(n, "tab_type") {
            match TabType::parse(v) {
                Ok(x) => {
                    self.tab_type = x;
                    Ok(())
                },
                Err(msg) => Err(OptionParseError::ValueParseError { msg }),
            }
        } else if str_eq(n, "tab_spaces") {
            match TabSpaces::parse(v) {
                Ok(x) => match TabSpaces::verify(x.0) {
                    Ok(()) => {
                        self.tab_spaces = x;
                        Ok(())
                    },
                    Err(msg) => Err(OptionParseError::ValueParseError { msg }),
                },
                Err(e) => Err(OptionParseError::ValueParseError { msg: e.to_string() }),
            }
        } else if str_eq(n, "tab_width") {
            match TabWidth::parse(v) {
                Ok(x) => match TabWidth::verify(x.0) {
                    Ok(()) => {
                        self.tab_width = x;
                        Ok(())
                    },
                    Err(msg) => Err(OptionParseError::ValueParseError { msg }),
                },
                Err(e) => Err(OptionParseError::ValueParseError { msg: e.to_string() }),
            }
        } else {
            Err(OptionParseError::NoMatchingOption { option: name })
        }
    }
}

/// Struct that creates an [`Options`] object.
pub struct OptionFactory {
    opt: Options,
}

impl OptionFactory {
    /// Create a new [`OptionFactory`]; the `Options` object begins with its default value.
    pub fn new() -> (f: Self)
        ensures
            f.peek_view() == default_options(),
    {
        OptionFactory { opt: Options::default() }
    }

    /// The `Options` object being created.
    pub closed spec fn peek_view(&self) -> OptionsView {
        self.opt@
    }

    /// Consume the `OptionFactory` and return the created `Options` object.
    pub fn options(self) -> (o: Options)
        ensures
            o@ == self.peek_view(),
    {
        self.opt
    }

    /// Return a reference to the `Options` object in the process of being created.
    pub fn peek(&self) -> (o: &Options)
        ensures
            o@ == self.peek_view(),
    {
        &self.opt
    }

    /// Set the `line_numbering` field of the `Options` object.
    pub fn set_line_numbering(&mut self, line_numbering: LineNumbers) -> (r: &mut Self)
        ensures
            r.peek_view() == (OptionsView { line_numbering, ..old(self).peek_view() }),
            *final(self) == *final(r),
    {
        self.opt.line_numbering = line_numbering;
        self
    }

    /// Set the `layout` field of the `Options` object.
    pub fn set_layout(&mut self, layout: LayoutType) -> (r: &mut Self)
        ensures
            r.peek_view() == (OptionsView { layout: layout@, ..old(self).peek_view() }),
            *final(self) == *final(r),
    {
        self.opt.layout = layout;
        self
    }

    /// Set the `tab_type` field of the `Options` object.
    pub fn set_tab_type(&mut self, tab_type: TabType) -> (r: &mut Self)
        ensures
            r.peek_view() == (OptionsView { tab_type, ..old(self).peek_view() }),
            *final(self) == *final(r),
    {
        self.opt.tab_type = tab_type;
        self
    }

    /// Set the `tab_spaces` field of the `Options` object.
    pub fn set_tab_spaces(&mut self, tab_spaces: TabSpaces) -> (r: &mut Self)
        ensures
            r.peek_view() == (OptionsView {
                tab_spaces: tab_spaces.0,
                ..old(self).peek_view()
            }),
            *final(self) == *final(r),
    {
        self.opt.tab_spaces = tab_spaces;
        self
    }

    /// Set the `tab_width` field of the `Options` object.
    pub fn set_tab_width(&mut self, tab_width: TabWidth) -> (r: &mut Self)
        ensures
            r.peek_view() == (OptionsView { tab_width: tab_width.0, ..old(self).peek_view() }),
            *final(self) == *final(r),
    {
        self.opt.tab_width = tab_width;
        self
    }

    /// Read a single option/value pair from an option line and set it in the `Options` object.
    pub fn read_option(&mut self, s: &str) -> (r: Result<(), OptionParseError>)
        ensures
            match option_line(s@) {
                None => final(self).peek_view() == old(self).peek_view() && r == Err::<
                    (),
                    OptionParseError,
                >(option_line_error(s@)),
                Some((name, value)) => set_option_outcome(
                    old(self).peek_view(),
                    name,
                    value,
                    final(self).peek_view(),
                    r,
                ),
            },
    {
        self.opt.set_option(s)
    }
}

/// Setting an option twice to the same value is setting it once.
pub proof fn lemma_set_option_twice(o: OptionsView, name: Seq<char>, value: Seq<char>)
    requires
        set_option_spec(o, name, value) matches Some(Ok(_)),
    ensures
        set_option_spec(set_option_spec(o, name, value)->0->Ok_0, name, value) == set_option_spec(
            o,
            name,
            value,
        ),
{
}

/// Setting an option changes that option only.
pub proof fn lemma_set_option_only(o: OptionsView, name: Seq<char>, value: Seq<char>)
    requires
        set_option_spec(o, name, value) matches Some(Ok(_)),
    ensures
        ({
            let n = set_option_spec(o, name, value)->0->Ok_0;
            &&& name != "line_numbering"@ ==> n.line_numbering == o.line_numbering
            &&& name != "layout"@ ==> n.layout == o.layout
            &&& name != "tab_type"@ ==> n.tab_type == o.tab_type
            &&& name != "tab_spaces"@ ==> n.tab_spaces == o.tab_spaces
            &&& name != "tab_width"@ ==> n.tab_width == o.tab_width
        }),
{
}

/// The name by which a layout is chosen: `Qwerty`, `Dvorak` and `Colemak` for the built-in
/// layouts, and its own name for a custom layout.
pub open spec fn layout_name(l: LayoutTypeView) -> Seq<char> {
    match l {
        LayoutTypeView::Qwerty => "Qwerty"@,
        LayoutTypeView::Dvorak => "Dvorak"@,
        LayoutTypeView::Colemak => "Colemak"@,
        LayoutTypeView::Custom(n) => n,
    }
}

/// Whether `s` is the name of a built-in layout.
pub open spec fn is_builtin_layout_name(s: Seq<char>) -> bool {
    s == "Qwerty"@ || s == "Dvorak"@ || s == "Colemak"@
}

/// Each layout name chooses its own layout: parsing the name of a layout gives that layout
/// back (for a custom layout, one whose name is not that of a built-in layout), and the
/// parsed layout is named by the text that was parsed. So `Qwerty`, `Dvorak` and `Colemak`
/// give the three built-in layouts, each a different one, and any other text a custom
/// layout of that name.
pub proof fn lemma_layout_names(l: LayoutTypeView, s: Seq<char>)
    ensures
        !(l matches LayoutTypeView::Custom(n) && is_builtin_layout_name(n)) ==> layout_type_of(
            layout_name(l),
        ) == l,
        layout_name(layout_type_of(s)) == s,
        layout_type_of(s) is Custom <==> !is_builtin_layout_name(s),
{
    reveal_strlit("Qwerty");
    reveal_strlit("Dvorak");
    reveal_strlit("Colemak");
    assert("Qwerty"@[0] != "Dvorak"@[0] && "Qwerty"@[0] != "Colemak"@[0] && "Dvorak"@[0]
        != "Colemak"@[0]);
}

/// The name of a line numbering setting: `Off`, `On` or `Relative`.
pub open spec fn line_numbers_name(n: LineNumbers) -> Seq<char> {
    match n {
        LineNumbers::Off => "Off"@,
        LineNumbers::On => "On"@,
        LineNumbers::Relative => "Relative"@,
    }
}

/// The name of a tab setting: `Tab` or `Spaces`.
pub open spec fn tab_type_name(t: TabType) -> Seq<char> {
    match t {
        TabType::Tab => "Tab"@,
        TabType::Spaces => "Spaces"@,
    }
}

/// Each line numbering setting and each tab setting is chosen by its own name and by no other
/// text: parsing a setting's name gives that setting, and whatever parses is the name of what
/// it gives.
pub proof fn lemma_setting_names(n: LineNumbers, t: TabType, s: Seq<char>)
    ensures
        line_numbers_of(line_numbers_name(n)) == Some(n),
        line_numbers_of(s) matches Some(m) ==> s == line_numbers_name(m),
        tab_type_of(tab_type_name(t)) == Some(t),
        tab_type_of(s) matches Some(u) ==> s == tab_type_name(u),
{
    reveal_strlit("Off");
    reveal_strlit("On");
    reveal_strlit("Relative");
    reveal_strlit("Tab");
    reveal_strlit("Spaces");
    assert("Off"@[1] != "On"@[1] && "Off"@[0] != "Relative"@[0] && "On"@[0] != "Relative"@[0]);
    assert("Tab"@[0] != "Spaces"@[0]);
}

} // verus!

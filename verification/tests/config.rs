use libfim::config::config_error::{
    BindParseError, ConfigParseError, IOError, IncludeParseError, IoErrorKind, LayoutParseError,
    OptionParseError,
};
use libfim::config::options::{LayoutType, LineNumbers};
use libfim::config::{Config, LineStep};
use libfim::context::ContextKind;
use libfim::keys::{KeyCode, KeyEvent, KeyModifiers};
use libfim::layout::CustomLayout;

#[test]
fn config_blank_and_comment_lines() {
    let mut c = Config::new();
    assert!(matches!(c.parse_line("", 1), Ok(LineStep::Done)));
    assert!(matches!(c.parse_line("   \t", 2), Ok(LineStep::Done)));
    assert!(matches!(c.parse_line("\" a comment", 3), Ok(LineStep::Done)));
}

#[test]
fn config_not_a_statement() {
    let mut c = Config::new();
    assert_eq!(c.parse_line("hello", 4).err(), Some(ConfigParseError::NotAStatement { line: 4 }));
}

#[test]
fn config_set_and_bind_lines() {
    let mut c = Config::new();
    assert!(matches!(c.parse_line("set line_numbering = On", 1), Ok(LineStep::Done)));
    assert_eq!(c.opt.line_numbering, LineNumbers::On);
    assert!(matches!(c.parse_line("bind(NormalMode) : CommandMode", 2), Ok(LineStep::Done)));
    let key = KeyEvent::new(KeyCode::Char(':'), KeyModifiers::NONE);
    assert_eq!(c.query_binds("NormalMode", key), Some(&ContextKind::CommandMode));
    assert_eq!(c.query_binds("InsertMode", key), None);
}

#[test]
fn config_errors_carry_line() {
    let mut c = Config::new();
    assert_eq!(
        c.parse_line("bind(NormalMode) A", 7).err(),
        Some(ConfigParseError::BindParseError { error: BindParseError::NotEnoughTerms, line: 7 })
    );
    assert_eq!(
        c.parse_line("set colour = red", 8).err(),
        Some(ConfigParseError::OptionParseError {
            error: OptionParseError::NoMatchingOption { option: "colour".to_string() },
            line: 8
        })
    );
    assert_eq!(
        c.parse_line("set layout = Missing", 9).err(),
        Some(ConfigParseError::NoMatchingLayout { line: 9 })
    );
}

#[test]
fn config_include_lines() {
    let mut c = Config::new();
    assert_eq!(
        c.parse_line("includes", 1).err(),
        Some(ConfigParseError::IncludeParseError { error: IncludeParseError::MalformedInclude, line: 1 })
    );
    assert!(matches!(c.parse_line("include 'other.fimrc'", 2), Ok(LineStep::Done)));
    assert_eq!(
        c.parse_line("include theme 'x'", 3).err(),
        Some(ConfigParseError::IncludeParseError { error: IncludeParseError::UnknownIncludeType, line: 3 })
    );
    assert_eq!(
        c.parse_line("include layout workman.txt", 4).err(),
        Some(ConfigParseError::IncludeParseError { error: IncludeParseError::LayoutNoQuotedFile, line: 4 })
    );
    match c.parse_line("include layout 'work man.txt' as  wm ", 5) {
        Ok(LineStep::LoadLayout { file, rest }) => {
            assert_eq!(file, "work man.txt");
            assert_eq!(rest, " as  wm ");
        },
        _ => panic!("expected a layout to load"),
    }
}

#[test]
fn config_add_layout_and_use_it() {
    let mut c = Config::new();
    let layout = CustomLayout::parse("layout swapped\na => b\nb => a\n").unwrap();
    assert_eq!(c.add_layout(Ok(layout), " as sw", 3), Ok(()));
    assert!(matches!(c.parse_line("set layout = sw", 4), Ok(LineStep::Done)));
    assert_eq!(c.opt.layout, LayoutType::Custom { name: "sw".to_string() });
    assert!(matches!(c.parse_line("bind(NormalMode) a InsertMode", 5), Ok(LineStep::Done)));
    // the key at QWERTY 'a' reads 'b' in this layout
    let pressed = KeyEvent::new(KeyCode::Char('b'), KeyModifiers::NONE);
    assert_eq!(c.query_binds("NormalMode", pressed), Some(&ContextKind::InsertMode));
    let q = KeyEvent::new(KeyCode::Char('a'), KeyModifiers::NONE);
    assert_eq!(c.to_current_layout_event(q), KeyEvent::new(KeyCode::Char('b'), KeyModifiers::NONE));
}

#[test]
fn config_add_layout_errors() {
    let mut c = Config::new();
    let layout = CustomLayout::parse("layout x\n").unwrap();
    assert_eq!(
        c.add_layout(Ok(layout), " named x", 6),
        Err(ConfigParseError::IncludeParseError { error: IncludeParseError::MalformedAsClause, line: 6 })
    );
    assert_eq!(
        c.add_layout(Err(LayoutParseError::NoFirstLine), "", 7),
        Err(ConfigParseError::LayoutParseError { error: LayoutParseError::NoFirstLine, line: 7 })
    );
    let own = CustomLayout::parse("layout ownname\n").unwrap();
    assert_eq!(c.add_layout(Ok(own), "", 8), Ok(()));
    assert_eq!(c.layouts.len(), 1);
    assert_eq!(c.layouts[0].0, "ownname");
}

#[test]
fn config_dvorak_query() {
    let mut c = Config::new();
    assert!(matches!(c.parse_line("set layout = Dvorak", 1), Ok(LineStep::Done)));
    assert!(matches!(c.parse_line("bind(NormalMode) S CommandMode", 2), Ok(LineStep::Done)));
    // Dvorak 'o' sits where QWERTY 's' is
    let pressed = KeyEvent::new(KeyCode::Char('o'), KeyModifiers::NONE);
    assert_eq!(c.query_binds("NormalMode", pressed), Some(&ContextKind::CommandMode));
    let e = Config::to_qwerty_event(pressed, &LayoutType::Dvorak, &c.layouts);
    assert_eq!(e, KeyEvent::new(KeyCode::Char('s'), KeyModifiers::NONE));
}

#[test]
fn error_messages() {
    let e = ConfigParseError::bind(BindParseError::NoMatchingContext { context: "Foo".to_string() }, 12);
    assert_eq!(e.value(), "error parsing bind statement on line 12: no matching context Foo found");
    let e = ConfigParseError::option(OptionParseError::NoEquals, 3);
    assert_eq!(e.value(), "error parsing option statement on line 3: did not find `=` in string");
    let e = ConfigParseError::layout(LayoutParseError::MalformedLayoutPair { line: 5 }, 2);
    assert_eq!(
        e.value(),
        "error parsing layout spec (included on line 2): did not find ` => ` in layout pair on line 5"
    );
    let e = ConfigParseError::include_error(IncludeParseError::LayoutNoQuotedFile, 0);
    assert_eq!(
        e.value(),
        "error parsing include statement on line 0: in layout include, found no single-quoted file name"
    );
    assert_eq!(ConfigParseError::NotAStatement { line: 40 }.value(), "could not determine statement type of line 40");
    assert_eq!(
        ConfigParseError::NoMatchingLayout { line: 1 }.value(),
        "could not find an included custom layout matching line 1"
    );
    let io = IOError::new(IoErrorKind::NotFound, "No such file or directory (os error 2)".to_string());
    assert_eq!(ConfigParseError::IOError { error: io.clone() }.value(), "No such file or directory (os error 2)");
    assert_eq!(
        LayoutParseError::NonCharacterMapping { line: 3 }.message(),
        "layout pair on line 3 not mapping a character to a character"
    );
    assert_eq!(OptionParseError::ValueParseError { msg: "bad".to_string() }.message(), "failed to parse value: bad");
    assert_eq!(BindParseError::UnicodeBoundaryErrorInKeyEvent.message(), "unexpected unicode character in key event term");
}

#[test]
fn io_errors_compare_by_kind() {
    let a = IOError::new(IoErrorKind::NotFound, "a".to_string());
    let b = IOError::new(IoErrorKind::NotFound, "b".to_string());
    let c = IOError::new(IoErrorKind::PermissionDenied, "a".to_string());
    assert!(a == b);
    assert!(a != c);
    assert_eq!(a.kind(), IoErrorKind::NotFound);
    assert_eq!(b.message(), "b");
}

use libfim::config::config_error::LayoutParseError;
use libfim::keys::KeyCode;
use libfim::layout::{deshift_qwerty, shift_qwerty, Colemak, CustomLayout, Dvorak, Layout, Qwerty};

#[test]
fn custom_layout_parse() {
    let l = CustomLayout::parse("layout  My Layout \nq => '\nw => ,\r\n").unwrap();
    assert_eq!(l.name(), "My Layout");
    assert_eq!(l.from_qwerty(b'q'), b'\'');
    assert_eq!(l.from_qwerty(b'w'), b',');
    assert_eq!(l.from_qwerty(b'e'), b'e');
    assert_eq!(l.to_qwerty(b','), b'w');
    assert_eq!(l.to_qwerty(b'w'), b'w');
}

#[test]
fn custom_layout_later_pair_wins() {
    let l = CustomLayout::parse("layout x\na => b\na => c").unwrap();
    assert_eq!(l.from_qwerty(b'a'), b'c');
    assert_eq!(l.to_qwerty(b'b'), b'a');
    assert_eq!(l.to_qwerty(b'c'), b'a');
}

#[test]
fn custom_layout_errors() {
    assert_eq!(CustomLayout::parse("").err(), Some(LayoutParseError::NoFirstLine));
    assert_eq!(CustomLayout::parse("name x\n").err(), Some(LayoutParseError::NoLayoutName));
    assert_eq!(
        CustomLayout::parse("layout x\na => b\nä => b\n").err(),
        Some(LayoutParseError::NonAsciiCharacter { line: 3 })
    );
    assert_eq!(
        CustomLayout::parse("layout x\na -> b\n").err(),
        Some(LayoutParseError::MalformedLayoutPair { line: 2 })
    );
    assert_eq!(
        CustomLayout::parse("layout x\nab => c\n").err(),
        Some(LayoutParseError::NonCharacterMapping { line: 2 })
    );
}

#[test]
fn custom_layout_parts() {
    assert_eq!(CustomLayout::parse_name("layout  dvorak-ish  "), Ok("dvorak-ish".to_string()));
    assert_eq!(CustomLayout::parse_name("layouts x"), Err(LayoutParseError::NoLayoutName));
    assert_eq!(CustomLayout::parse_pair("x => y  ", 9), Ok((b'x', b'y')));
    assert_eq!(CustomLayout::parse_pair(" x => y", 9), Err(LayoutParseError::NonCharacterMapping { line: 9 }));
}

#[test]
fn builtin_layouts() {
    assert_eq!(Dvorak.from_qwerty(b's'), b'o');
    assert_eq!(Dvorak.to_qwerty(b'e'), b'd');
    assert_eq!(Dvorak.from_qwerty(b'S'), b'O');
    assert_eq!(Qwerty.from_qwerty(b'k'), b'k');
    for b in 0u8..128 {
        assert_eq!(Dvorak.to_qwerty(Dvorak.from_qwerty(b)), b);
        assert_eq!(Colemak.to_qwerty(Colemak.from_qwerty(b)), b);
    }
    assert_eq!(Dvorak.from_qwerty_keycode(KeyCode::Char('s')), KeyCode::Char('o'));
    assert_eq!(Dvorak.from_qwerty_keycode(KeyCode::Char('ß')), KeyCode::Char('ß'));
    assert_eq!(Colemak.to_qwerty_keycode(KeyCode::Enter), KeyCode::Enter);
}

#[test]
fn shift_and_deshift() {
    assert_eq!(shift_qwerty(b'a'), b'A');
    assert_eq!(shift_qwerty(b'1'), b'!');
    assert_eq!(deshift_qwerty(b'?'), b'/');
    assert_eq!(deshift_qwerty(shift_qwerty(b';')), b';');
}

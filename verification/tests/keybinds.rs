use libfim::config::config_error::{BindParseError, ConfigParseError};
use libfim::config::keybinds::{Config, ConfigMap};
use libfim::keys::{KeyCode, KeyEvent, KeyModifiers};

#[test]
fn test_parse_line_key_event() {
    assert_eq!(Config::parse_key_event("", 1).err(), Some(ConfigParseError::bind(BindParseError::MalformedKeyEventTerm, 1)));
    assert_eq!(Config::parse_key_event("a", 1).unwrap(), KeyEvent::new(KeyCode::Char('A'), KeyModifiers::NONE));
    assert_eq!(Config::parse_key_event("B", 1).unwrap(), KeyEvent::new(KeyCode::Char('B'), KeyModifiers::NONE));
    assert_eq!(Config::parse_key_event("<Tab>", 1).unwrap(), KeyEvent::new(KeyCode::Tab, KeyModifiers::NONE));
    assert_eq!(Config::parse_key_event("<tab>", 1).err(), Some(ConfigParseError::bind(BindParseError::MalformedKeyEventTerm, 1)));
    assert_eq!(Config::parse_key_event("<C-C>", 1).unwrap(), KeyEvent::new(KeyCode::Char('C'), KeyModifiers::CONTROL));
    assert_eq!(Config::parse_key_event("<C-S-A>", 1).unwrap(), KeyEvent::new(KeyCode::Char('A'), KeyModifiers::CONTROL.union(KeyModifiers::SHIFT)));
    assert_eq!(Config::parse_key_event("<C-A-->", 1).unwrap(), KeyEvent::new(KeyCode::Char('-'), KeyModifiers::CONTROL.union(KeyModifiers::ALT)));
    assert_eq!(Config::parse_key_event("<A-Enter>", 1).unwrap(), KeyEvent::new(KeyCode::Enter, KeyModifiers::ALT));
    assert_eq!(Config::parse_key_event("<S-V>", 1).unwrap(), KeyEvent::new(KeyCode::Char('V'), KeyModifiers::SHIFT));
    assert_eq!(Config::parse_key_event("<S-A-C>", 1).unwrap(), KeyEvent::new(KeyCode::Char('C'), KeyModifiers::SHIFT.union(KeyModifiers::ALT)));
    assert_eq!(Config::parse_key_event("<C-S-A-Del>", 1).unwrap(), KeyEvent::new(KeyCode::Delete, KeyModifiers::CONTROL.union(KeyModifiers::SHIFT.union(KeyModifiers::ALT))));
}

#[test]
fn test_config_map() {
    let map = ConfigMap::new();
    let ascii_graphics = "`1234567890-=~!@#$%^&*()_+qwertyuiop[]QWERTYUIOP{}asdfghjkl;'\\ASDFGHJKL:\"|zxcvbnm,./ZXCVBNM<>?";
    for ch in ascii_graphics.chars() {
        assert_eq!(map.query(&ch.to_string()), Some(KeyEvent::new(KeyCode::Char(ch.to_ascii_uppercase()), KeyModifiers::NONE)));
        assert_eq!(map.query_code(&ch.to_string()), Some(KeyCode::Char(ch.to_ascii_uppercase())));
    }
    assert_eq!(map.query("<Tab>"), Some(KeyEvent::new(KeyCode::Tab, KeyModifiers::NONE)));
    assert_eq!(map.query_code("Tab"), Some(KeyCode::Tab));
    assert_eq!(map.query("<CR>"), Some(KeyEvent::new(KeyCode::Enter, KeyModifiers::NONE)));
    assert_eq!(map.query_code("CR"), Some(KeyCode::Enter));
    assert_eq!(map.query("<F1>"), Some(KeyEvent::new(KeyCode::F(1), KeyModifiers::NONE)));
    assert_eq!(map.query_code("F1"), Some(KeyCode::F(1)));
    assert_eq!(map.query("<F2>"), Some(KeyEvent::new(KeyCode::F(2), KeyModifiers::NONE)));
    assert_eq!(map.query_code("F2"), Some(KeyCode::F(2)));
    assert_eq!(map.query("<F3>"), Some(KeyEvent::new(KeyCode::F(3), KeyModifiers::NONE)));
    assert_eq!(map.query_code("F3"), Some(KeyCode::F(3)));
    assert_eq!(map.query("<F4>"), Some(KeyEvent::new(KeyCode::F(4), KeyModifiers::NONE)));
    assert_eq!(map.query_code("F4"), Some(KeyCode::F(4)));
    assert_eq!(map.query("<F5>"), Some(KeyEvent::new(KeyCode::F(5), KeyModifiers::NONE)));
    assert_eq!(map.query_code("F5"), Some(KeyCode::F(5)));
    assert_eq!(map.query("<F6>"), Some(KeyEvent::new(KeyCode::F(6), KeyModifiers::NONE)));
    assert_eq!(map.query_code("F6"), Some(KeyCode::F(6)));
    assert_eq!(map.query("<F7>"), Some(KeyEvent::new(KeyCode::F(7), KeyModifiers::NONE)));
    assert_eq!(map.query_code("F7"), Some(KeyCode::F(7)));
    assert_eq!(map.query("<F8>"), Some(KeyEvent::new(KeyCode::F(8), KeyModifiers::NONE)));
    assert_eq!(map.query_code("F8"), Some(KeyCode::F(8)));
    assert_eq!(map.query("<F9>"), Some(KeyEvent::new(KeyCode::F(9), KeyModifiers::NONE)));
    assert_eq!(map.query_code("F9"), Some(KeyCode::F(9)));
    assert_eq!(map.query("<F10>"), Some(KeyEvent::new(KeyCode::F(10), KeyModifiers::NONE)));
    assert_eq!(map.query_code("F10"), Some(KeyCode::F(10)));
    assert_eq!(map.query("<F11>"), Some(KeyEvent::new(KeyCode::F(11), KeyModifiers::NONE)));
    assert_eq!(map.query_code("F11"), Some(KeyCode::F(11)));
    assert_eq!(map.query("<F12>"), Some(KeyEvent::new(KeyCode::F(12), KeyModifiers::NONE)));
    assert_eq!(map.query_code("F12"), Some(KeyCode::F(12)));
    assert_eq!(map.query("<Ins>"), Some(KeyEvent::new(KeyCode::Insert, KeyModifiers::NONE)));
    assert_eq!(map.query_code("Ins"), Some(KeyCode::Insert));
    assert_eq!(map.query("<Del>"), Some(KeyEvent::new(KeyCode::Delete, KeyModifiers::NONE)));
    assert_eq!(map.query_code("Del"), Some(KeyCode::Delete));
    assert_eq!(map.query("<Home>"), Some(KeyEvent::new(KeyCode::Home, KeyModifiers::NONE)));
    assert_eq!(map.query_code("Home"), Some(KeyCode::Home));
    assert_eq!(map.query("<End>"), Some(KeyEvent::new(KeyCode::End, KeyModifiers::NONE)));
    assert_eq!(map.query_code("End"), Some(KeyCode::End));
    assert_eq!(map.query("<PageUp>"), Some(KeyEvent::new(KeyCode::PageUp, KeyModifiers::NONE)));
    assert_eq!(map.query_code("PageUp"), Some(KeyCode::PageUp));
    assert_eq!(map.query("<PageDown>"), Some(KeyEvent::new(KeyCode::PageDown, KeyModifiers::NONE)));
    assert_eq!(map.query_code("PageDown"), Some(KeyCode::PageDown));
    assert_eq!(map.query("<Left>"), Some(KeyEvent::new(KeyCode::Left, KeyModifiers::NONE)));
    assert_eq!(map.query_code("Left"), Some(KeyCode::Left));
    assert_eq!(map.query("<Right>"), Some(KeyEvent::new(KeyCode::Right, KeyModifiers::NONE)));
    assert_eq!(map.query_code("Right"), Some(KeyCode::Right));
    assert_eq!(map.query("<Up>"), Some(KeyEvent::new(KeyCode::Up, KeyModifiers::NONE)));
    assert_eq!(map.query_code("Up"), Some(KeyCode::Up));
    assert_eq!(map.query("<Down>"), Some(KeyEvent::new(KeyCode::Down, KeyModifiers::NONE)));
    assert_eq!(map.query_code("Down"), Some(KeyCode::Down));
    assert_eq!(map.query("<Enter>"), Some(KeyEvent::new(KeyCode::Enter, KeyModifiers::NONE)));
    assert_eq!(map.query_code("Enter"), Some(KeyCode::Enter));
    assert_eq!(map.query("<Space>"), Some(KeyEvent::new(KeyCode::Char(' '), KeyModifiers::NONE)));
    assert_eq!(map.query_code("Space"), Some(KeyCode::Char(' ')));
    assert_eq!(map.query("<BS>"), Some(KeyEvent::new(KeyCode::Backspace, KeyModifiers::NONE)));
    assert_eq!(map.query_code("BS"), Some(KeyCode::Backspace));
    assert_eq!(map.query("<Esc>"), Some(KeyEvent::new(KeyCode::Esc, KeyModifiers::NONE)));
    assert_eq!(map.query_code("Esc"), Some(KeyCode::Esc));
}

#[test]
fn parse_key_event_special_name_after_modifier() {
    assert_eq!(Config::parse_key_event("<C-Space>", 1).unwrap(), KeyEvent::new(KeyCode::Char(' '), KeyModifiers::CONTROL));
    assert_eq!(Config::parse_key_event("<A-Space>", 1).unwrap(), KeyEvent::new(KeyCode::Char(' '), KeyModifiers::ALT));
    assert_eq!(Config::parse_key_event("<C-S-Space>", 1).unwrap(), KeyEvent::new(KeyCode::Char(' '), KeyModifiers::CONTROL.union(KeyModifiers::SHIFT)));
    assert_eq!(Config::parse_key_event("<C-Spac>", 1).err(), Some(ConfigParseError::bind(BindParseError::MalformedKeyEventTerm, 1)));
}

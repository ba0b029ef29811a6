use libfim::context::{context, Action, CommandAction, CommandMode, ContextKind};
use libfim::keys::KeyCode;

fn typed(c: &mut CommandMode, s: &str, width: u16, stack: &Vec<String>) {
    for ch in s.chars() {
        assert_eq!(c.forward(KeyCode::Char(ch), width, stack), CommandAction::Redraw);
    }
}

#[test]
fn command_mode_typing_and_enter() {
    let stack: Vec<String> = Vec::new();
    let mut c = CommandMode::new();
    assert_eq!(c.forward(KeyCode::Left, 80, &stack), CommandAction::Nothing);
    typed(&mut c, "wq", 80, &stack);
    assert_eq!(c.terminal_x(), 3);
    assert_eq!(c.visible(80), "wq");
    assert_eq!(c.forward(KeyCode::Left, 80, &stack), CommandAction::Move);
    assert_eq!(c.forward(KeyCode::Backspace, 80, &stack), CommandAction::Redraw);
    assert_eq!(c.visible(80), "q");
    assert_eq!(c.forward(KeyCode::Delete, 80, &stack), CommandAction::Redraw);
    assert_eq!(c.visible(80), "");
    typed(&mut c, "q", 80, &stack);
    assert_eq!(
        c.forward(KeyCode::Enter, 80, &stack),
        CommandAction::Finish { quit: true, command: "q".to_string() }
    );
}

#[test]
fn command_mode_enter_other_command() {
    let stack: Vec<String> = Vec::new();
    let mut c = CommandMode::new();
    typed(&mut c, "w", 80, &stack);
    assert_eq!(c.forward(KeyCode::Enter, 80, &stack), CommandAction::Finish { quit: false, command: "w".to_string() });
}

#[test]
fn command_mode_history() {
    let stack = vec!["first".to_string(), "second".to_string()];
    let mut c = CommandMode::new();
    typed(&mut c, "ab", 80, &stack);
    assert_eq!(c.forward(KeyCode::Up, 80, &stack), CommandAction::Redraw);
    assert_eq!(c.visible(80), "second");
    assert_eq!(c.forward(KeyCode::Up, 80, &stack), CommandAction::Redraw);
    assert_eq!(c.visible(80), "first");
    assert_eq!(c.forward(KeyCode::Up, 80, &stack), CommandAction::Nothing);
    assert_eq!(c.visible(80), "first");
    assert_eq!(c.get_command(&stack), Some(&"first".to_string()));
    assert_eq!(c.forward(KeyCode::Down, 80, &stack), CommandAction::Redraw);
    assert_eq!(c.visible(80), "second");
    assert_eq!(c.forward(KeyCode::Down, 80, &stack), CommandAction::Redraw);
    assert_eq!(c.visible(80), "ab");
    assert_eq!(c.forward(KeyCode::Down, 80, &stack), CommandAction::Nothing);
    assert_eq!(c.get_command(&stack), None);
}

#[test]
fn command_mode_scrolls_in_narrow_terminal() {
    let stack: Vec<String> = Vec::new();
    let mut c = CommandMode::new();
    typed(&mut c, "abcdef", 5, &stack);
    assert_eq!(c.visible(5), "def");
    assert_eq!(c.terminal_x(), 4);
    assert_eq!(c.begin_for_end(5), 3);
    assert_eq!(c.forward(KeyCode::Right, 5, &stack), CommandAction::Nothing);
    assert_eq!(c.forward(KeyCode::Left, 5, &stack), CommandAction::Move);
    assert_eq!(c.forward(KeyCode::Left, 5, &stack), CommandAction::Move);
    assert_eq!(c.forward(KeyCode::Left, 5, &stack), CommandAction::Move);
    assert_eq!(c.terminal_x(), 1);
    assert_eq!(c.forward(KeyCode::Left, 5, &stack), CommandAction::Draw);
    assert_eq!(c.visible(5), "cdef");
    assert_eq!(c.forward(KeyCode::Home, 5, &stack), CommandAction::Nothing);
}

#[test]
fn contexts_by_name() {
    assert_eq!(context("NormalMode", String::new()), Some(ContextKind::NormalMode));
    assert_eq!(context("CommandMode", String::new()), Some(ContextKind::CommandMode));
    assert_eq!(context("Action", " go now".to_string()), Some(ContextKind::Action(" go now".to_string())));
    assert_eq!(context("InsertMode", String::new()), Some(ContextKind::InsertMode));
    assert_eq!(context("insertmode", String::new()), None);
    let a = Action::new("save".to_string());
    assert_eq!(a.action(), "save");
}

#[test]
fn command_mode_up_then_down_gives_typed_line_back() {
    let stack = vec!["first".to_string(), "second".to_string()];
    let mut c = CommandMode::new();
    typed(&mut c, "xy", 80, &stack);
    assert_eq!(c.forward(KeyCode::Up, 80, &stack), CommandAction::Redraw);
    assert_eq!(c.visible(80), "second");
    assert_eq!(c.forward(KeyCode::Down, 80, &stack), CommandAction::Redraw);
    assert_eq!(c.visible(80), "xy");
    assert_eq!(c.get_command(&stack), None);
    assert_eq!(
        c.forward(KeyCode::Enter, 80, &stack),
        CommandAction::Finish { quit: false, command: "xy".to_string() }
    );
    let empty: Vec<String> = Vec::new();
    let mut d = CommandMode::new();
    typed(&mut d, "q", 80, &empty);
    assert_eq!(d.forward(KeyCode::Up, 80, &empty), CommandAction::Nothing);
    assert_eq!(d.forward(KeyCode::Down, 80, &empty), CommandAction::Nothing);
    assert_eq!(d.visible(80), "q");
}

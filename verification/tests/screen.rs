use libfim::config::options::LineNumbers;
use libfim::delta::{Delta, Differential};
use libfim::keys::{KeyCode, KeyEvent, KeyModifiers};
use libfim::terminal::{Position, Size, Terminal};
use libfim::text::decimal_string;
use libfim::window::{
    abs_diff, center_welcome, compute_text_attrs, div_ceil, line_number_text, log10, message_begin_line,
    saturating_sub, window_to_doc, DocLine, DocPosition, LineNumberCell, ScreenLine, WelcomeLine,
    Window, WindowAction, WindowLineProperties, WindowLineType,
};
use libfim::window::document_screen;
use libfim::document::Buffer;

#[test]
fn terminal_cursor_moves() {
    let mut t = Terminal::new(80, 24);
    assert_eq!(t.size(), Size { width: 80, height: 24 });
    t.cursor_to(10, 5);
    assert_eq!(*t.cursor_pos(), Position { x: 10, y: 5 });
    t.cursor_to(100, 7);
    assert_eq!(*t.cursor_pos(), Position { x: 10, y: 7 });
    t.save_cursor();
    t.cursor_left_by(20).cursor_up_by(3);
    assert_eq!(*t.cursor_pos(), Position { x: 0, y: 4 });
    t.cursor_right_by(500).cursor_down_by(1);
    assert_eq!(*t.cursor_pos(), Position { x: 0, y: 5 });
    t.cursor_right_by(79).cursor_down_by(18);
    assert_eq!(*t.cursor_pos(), Position { x: 79, y: 23 });
    t.restore_cursor();
    assert_eq!(*t.cursor_pos(), Position { x: 10, y: 7 });
    t.restore_cursor();
    assert_eq!(*t.cursor_pos(), Position { x: 10, y: 7 });
}

#[test]
fn window_helpers() {
    assert_eq!(div_ceil(0, 10), 1);
    assert_eq!(div_ceil(10, 10), 1);
    assert_eq!(div_ceil(11, 10), 2);
    assert_eq!(div_ceil(5, 0), usize::MAX);
    assert_eq!(abs_diff(3, 10), 7);
    assert_eq!(abs_diff(10, 3), 7);
    assert_eq!(saturating_sub(3, 5), 0);
    assert_eq!(saturating_sub(5, 3), 2);
    assert_eq!(log10(0), 0);
    assert_eq!(log10(9), 1);
    assert_eq!(log10(10), 2);
    assert_eq!(log10(12345), 5);
    assert_eq!(decimal_string(0), "0");
    assert_eq!(decimal_string(4071), "4071");
}

#[test]
fn window_text_attrs() {
    let size = Size { width: 80, height: 23 };
    assert_eq!(compute_text_attrs(LineNumbers::Off, &size, 5), (0, 80));
    assert_eq!(compute_text_attrs(LineNumbers::On, &size, 5), (3, 77));
    assert_eq!(compute_text_attrs(LineNumbers::Relative, &size, 12345), (6, 74));
    let tiny = Size { width: 2, height: 3 };
    assert_eq!(compute_text_attrs(LineNumbers::On, &tiny, 5), (3, 0));
}

#[test]
fn window_line_numbers() {
    assert_eq!(line_number_text(LineNumbers::On, 4, 0, 4), "  5 ");
    assert_eq!(line_number_text(LineNumbers::Relative, 4, 4, 4), "5   ");
    assert_eq!(line_number_text(LineNumbers::Relative, 4, 7, 4), "  3 ");
    assert_eq!(line_number_text(LineNumbers::Off, 4, 7, 4), "");
    assert_eq!(line_number_text(LineNumbers::On, 12344, 0, 3), "45 ");
}

#[test]
fn window_welcome_layout() {
    assert_eq!(center_welcome(10, 8), WelcomeLine::Cut);
    assert_eq!(center_welcome(10, 11), WelcomeLine::Tilde);
    assert_eq!(center_welcome(10, 16), WelcomeLine::Padded { left: 2, right: 3 });
    assert_eq!(message_begin_line(23, 4), 9);
    assert_eq!(message_begin_line(2, 4), 0);
}

#[test]
fn window_line_types() {
    let props = vec![
        WindowLineProperties { lines: 1, graphemes: 3 },
        WindowLineProperties { lines: 3, graphemes: 1 },
        WindowLineProperties { lines: 1, graphemes: 0 },
    ];
    assert_eq!(window_to_doc(&props, 0, 3, 0), Some(WindowLineType::DocLine(0)));
    assert_eq!(window_to_doc(&props, 0, 3, 1), Some(WindowLineType::DocLine(1)));
    assert_eq!(window_to_doc(&props, 0, 3, 2), Some(WindowLineType::WrappedLine));
    assert_eq!(window_to_doc(&props, 0, 3, 4), Some(WindowLineType::DocLine(2)));
    assert_eq!(window_to_doc(&props, 0, 3, 5), Some(WindowLineType::Tilde));
    assert_eq!(window_to_doc(&props, 1, 3, 3), Some(WindowLineType::DocLine(2)));
    let big = vec![WindowLineProperties { lines: 70000, graphemes: 0 }];
    assert_eq!(window_to_doc(&big, 0, 1, 2), Some(WindowLineType::WrappedLine));
    let tall = vec![
        WindowLineProperties { lines: 65000, graphemes: 0 },
        WindowLineProperties { lines: 1000, graphemes: 0 },
        WindowLineProperties { lines: 1, graphemes: 0 },
    ];
    assert_eq!(window_to_doc(&tall, 0, 3, 65535), None);
    assert_eq!(big[0].lines_u16(), None);
    assert_eq!(props[1].lines_u16(), Some(3));
}

#[test]
fn window_moves() {
    let lines = vec![
        DocLine { bytes: 5, length: 5 },
        DocLine { bytes: 2, length: 2 },
        DocLine { bytes: 9, length: 9 },
    ];
    let mut w = Window::new(lines, Size { width: 20, height: 3 }, LineNumbers::On);
    assert_eq!(w.move_left(), WindowAction::Nothing);
    assert_eq!(w.move_right(), WindowAction::Move);
    assert_eq!(w.move_right(), WindowAction::Move);
    assert_eq!(w.move_right(), WindowAction::Move);
    assert_eq!(w.move_down(), WindowAction::Move);
    assert_eq!(w.to_window_text(), Some(Position { x: 2, y: 1 }));
    assert_eq!(w.move_down(), WindowAction::RenderMove);
    assert_eq!(w.move_up(), WindowAction::Move);
    assert_eq!(w.move_up(), WindowAction::RenderMove);
    assert_eq!(w.move_up(), WindowAction::Nothing);
    assert_eq!(w.to_term(1, 0), Position { x: 4, y: 0 });
    w.update_options(LineNumbers::Relative);
    assert_eq!(w.move_down(), WindowAction::LineNumbersMove);
    let mut welcome = Window::default(Size { width: 20, height: 5 }, LineNumbers::On);
    assert_eq!(welcome.move_down(), WindowAction::Nothing);
    assert_eq!(DocPosition::origin(), DocPosition { x: 0, y: 0 });
}

#[test]
fn differential_starts_empty() {
    let d = Differential::new("/home/u/notes.txt".to_string());
    assert_eq!(d.file(), "/home/u/notes.txt");
    assert!(d.deltas().is_empty());
    let d2 = Differential::from_parts(vec![Delta {}, Delta {}], "/x".to_string());
    assert_eq!(d2.deltas().len(), 2);
}

#[test]
fn key_modifiers() {
    let m = KeyModifiers::from_flags(true, false, true);
    assert!(m.shift() && !m.control() && m.alt());
    let mut n = KeyModifiers::empty();
    n.insert(KeyModifiers::CONTROL);
    assert!(n.control());
    n.remove(KeyModifiers::CONTROL);
    assert_eq!(n, KeyModifiers::NONE);
    assert_eq!(KeyModifiers::SHIFT.union(KeyModifiers::ALT), m);
    let e = KeyEvent::new(KeyCode::F(3), m);
    assert_eq!(e.code, KeyCode::F(3));
}

#[test]
fn screen_lines_cut_long_lines() {
    let lines = vec![Buffer::new("abcdefghij".to_string()), Buffer::new("xy".to_string())];
    let plan = document_screen(&lines, 0, 3, 4, 5);
    assert_eq!(
        plan,
        vec![
            ScreenLine::Content { doc_line: 0, start: 0, end: 9 },
            ScreenLine::Continued { doc_line: 0, start: 4, end: 9 },
            ScreenLine::Content { doc_line: 1, start: 0, end: 2 },
            ScreenLine::Tilde,
            ScreenLine::Tilde,
        ]
    );
    let short = document_screen(&lines, 1, 3, 4, 2);
    assert_eq!(short, vec![ScreenLine::Content { doc_line: 1, start: 0, end: 2 }, ScreenLine::Tilde]);
    let one_cut = vec![Buffer::new("abcdef".to_string())];
    assert_eq!(document_screen(&one_cut, 0, 3, 4, 1), vec![ScreenLine::Content { doc_line: 0, start: 0, end: 6 }]);
    assert_eq!(document_screen(&lines, 5, 3, 4, 1), vec![ScreenLine::Tilde]);
}

#[test]
fn screen_lines_count_clusters() {
    let lines = vec![Buffer::new("e\u{301}e\u{301}e\u{301}".to_string())];
    let plan = document_screen(&lines, 0, 0, 0, 3);
    assert_eq!(
        plan,
        vec![
            ScreenLine::Content { doc_line: 0, start: 0, end: 6 },
            ScreenLine::Continued { doc_line: 0, start: 3, end: 6 },
            ScreenLine::Tilde,
        ]
    );
}

#[test]
fn window_line_number_cells() {
    let lines = vec![
        DocLine { bytes: 3, length: 3 },
        DocLine { bytes: 100, length: 100 },
        DocLine { bytes: 1, length: 1 },
    ];
    let w = Window::new(lines, Size { width: 20, height: 6 }, LineNumbers::On);
    let (text_start, text_width) = w.text_area();
    assert_eq!((text_start, text_width), (3, 17));
    match w.line_number(0) {
        Some(LineNumberCell::Number(s)) => assert_eq!(s, " 1 "),
        _ => panic!("line number expected"),
    }
    assert!(matches!(w.line_number(2), Some(LineNumberCell::Blank)));
    match w.line_number(7) {
        Some(LineNumberCell::Number(s)) => assert_eq!(s, " 3 "),
        _ => panic!("line number expected"),
    }
    assert!(matches!(w.line_number(8), Some(LineNumberCell::Tilde)));
    let texts = vec![
        Buffer::new("abc".to_string()),
        Buffer::new("x".repeat(100)),
        Buffer::new("z".to_string()),
    ];
    let plan = w.screen_lines(&texts);
    assert_eq!(plan.len(), 5);
    assert_eq!(plan[0], ScreenLine::Content { doc_line: 0, start: 0, end: 3 });
    assert_eq!(plan[1], ScreenLine::Content { doc_line: 1, start: 0, end: 39 });
    assert_eq!(plan[2], ScreenLine::Continued { doc_line: 1, start: 18, end: 39 });
    assert_eq!(plan[4], ScreenLine::Continued { doc_line: 1, start: 60, end: 81 });
}

#[test]
fn window_number_rows() {
    let lines = vec![
        DocLine { bytes: 3, length: 3 },
        DocLine { bytes: 100, length: 100 },
        DocLine { bytes: 1, length: 1 },
    ];
    let short = Window::new(lines.clone(), Size { width: 20, height: 6 }, LineNumbers::On);
    assert_eq!(short.number_rows(), vec![0, 1]);
    let tall = Window::new(lines, Size { width: 20, height: 11 }, LineNumbers::On);
    assert_eq!(tall.number_rows(), vec![0, 1, 7, 8, 9]);
}

#[test]
fn terminal_nested_save_restore() {
    let mut t = Terminal::new(80, 24);
    t.cursor_to(3, 4);
    t.save_cursor();
    t.cursor_to(10, 10);
    t.save_cursor();
    t.cursor_to(20, 20);
    t.save_cursor();
    t.cursor_right_by(5);
    t.restore_cursor();
    assert_eq!(*t.cursor_pos(), Position { x: 20, y: 20 });
    t.cursor_down_by(2);
    t.restore_cursor();
    assert_eq!(*t.cursor_pos(), Position { x: 10, y: 10 });
    t.restore_cursor();
    assert_eq!(*t.cursor_pos(), Position { x: 3, y: 4 });
    t.cursor_to(0, 0);
    t.restore_cursor();
    assert_eq!(*t.cursor_pos(), Position { x: 0, y: 0 });
}

use libfim::editor::{ContextStack, Next, Phase};

#[test]
fn pushed_context_becomes_active_after_setup() {
    let mut s = ContextStack::new("normal");
    assert_eq!(s.begin(), Some("normal"));
    assert_eq!(s.phase(), Phase::Forwarding);
    s.push_context("insert");
    assert_eq!(s.forwarded("normal", false), Next::SetUp("insert"));
    assert_eq!(s.phase(), Phase::Settling);
    assert_eq!(s.set_up("insert", false), Next::Done);
    assert_eq!(s.phase(), Phase::Idle);
    assert_eq!(s.len(), 2);
    assert_eq!(s.begin(), Some("insert"));
    assert_eq!(s.forwarded("insert", true), Next::Receive("normal"));
    assert_eq!(s.received("normal", false), Next::Done);
    assert_eq!(s.len(), 1);
    assert_eq!(s.begin(), Some("normal"));
}

#[test]
fn action_returns_at_setup() {
    let mut s = ContextStack::new(0u8);
    assert_eq!(s.begin(), Some(0));
    s.push_context(7);
    assert_eq!(s.forwarded(0, false), Next::SetUp(7));
    assert_eq!(s.set_up(7, true), Next::Done);
    assert_eq!(s.len(), 1);
}

#[test]
fn quiet_key_keeps_stack() {
    let mut s = ContextStack::new('n');
    assert_eq!(s.begin(), Some('n'));
    assert_eq!(s.forwarded('n', false), Next::Done);
    assert_eq!(s.len(), 1);
    assert_eq!(s.phase(), Phase::Idle);
}

#[test]
fn message_past_the_bottom_is_exhausted() {
    let mut s = ContextStack::new('n');
    assert_eq!(s.begin(), Some('n'));
    assert_eq!(s.forwarded('n', true), Next::Exhausted);
    assert_eq!(s.len(), 0);
    assert_eq!(s.begin(), None);
}

#[test]
fn message_sets_up_context_beneath_first() {
    let mut s = ContextStack::new("n");
    s.begin();
    s.push_context("x");
    s.push_context("y");
    assert_eq!(s.forwarded("n", false), Next::SetUp("y"));
    assert_eq!(s.set_up("y", false), Next::Done);
    assert_eq!(s.len(), 3);
    assert_eq!(s.begin(), Some("y"));
    assert_eq!(s.forwarded("y", true), Next::SetUp("x"));
    assert_eq!(s.set_up("x", false), Next::Receive("x"));
    assert_eq!(s.received("x", false), Next::Done);
    assert_eq!(s.len(), 2);
    assert_eq!(s.begin(), Some("x"));
    assert_eq!(s.forwarded("x", true), Next::Receive("n"));
    assert_eq!(s.received("n", true), Next::Exhausted);
}

#[test]
fn handled_key_press_keeps_bottom() {
    let mut s = ContextStack::new("normal");
    assert_eq!(s.begin(), Some("normal"));
    s.push_context("command");
    s.push_context("insert");
    assert_eq!(s.forwarded("normal", false), Next::SetUp("insert"));
    assert_eq!(s.set_up("insert", true), Next::Done);
    assert_eq!(s.phase(), Phase::Idle);
    assert_eq!(s.len(), 2);
    assert_eq!(s.begin(), Some("command"));
    assert_eq!(s.forwarded("command", true), Next::Receive("normal"));
    assert_eq!(s.received("normal", false), Next::Done);
    assert_eq!(s.len(), 1);
    assert_eq!(s.phase(), Phase::Idle);
    assert_eq!(s.begin(), Some("normal"));
}

use chat::ui::{
    chat_event, input_height, inner_width, wrap_text, App, Effect, Event, KeyCode, KeyEvent,
    KeyEventKind, Status, MODIFIER_CONTROL, MODIFIER_NONE, MODIFIER_SHIFT,
};

fn press(code: KeyCode, modifiers: u8) -> KeyEvent {
    KeyEvent { code, modifiers, kind: KeyEventKind::Press }
}

fn type_text(app: &mut App, s: &str) {
    for c in s.chars() {
        let r = app.handle_key_events(press(KeyCode::Char(c), MODIFIER_NONE));
        assert!(matches!(r, Effect::Nothing));
    }
}

#[test]
fn typing_and_enter_sends_and_logs() {
    let mut app = App::new();
    type_text(&mut app, "hi there");
    assert_eq!(app.user_message, "hi there");
    match app.handle_key_events(press(KeyCode::Enter, MODIFIER_NONE)) {
        Effect::Send { message, select } => {
            assert_eq!(message, "hi there");
            assert_eq!(select, 0);
        }
        _ => panic!("expected a send"),
    }
    assert_eq!(app.user_message, "");
    assert_eq!(app.messages, vec!["hi there".to_string()]);
}

#[test]
fn shift_types_control_does_not() {
    let mut app = App::new();
    app.handle_key_events(press(KeyCode::Char('A'), MODIFIER_SHIFT));
    app.handle_key_events(press(KeyCode::Char('b'), MODIFIER_CONTROL));
    assert_eq!(app.user_message, "A");
    assert!(!app.exit);
}

#[test]
fn backspace_and_escape() {
    let mut app = App::new();
    app.handle_key_events(press(KeyCode::Backspace, MODIFIER_NONE));
    assert_eq!(app.user_message, "");
    type_text(&mut app, "abc");
    app.handle_key_events(press(KeyCode::Backspace, MODIFIER_NONE));
    assert_eq!(app.user_message, "ab");
    app.handle_key_events(press(KeyCode::Esc, MODIFIER_NONE));
    assert_eq!(app.user_message, "");
}

#[test]
fn type_then_backspace_restores() {
    let mut app = App::new();
    type_text(&mut app, "xy");
    type_text(&mut app, "é");
    app.handle_key_events(press(KeyCode::Backspace, MODIFIER_NONE));
    assert_eq!(app.user_message, "xy");
}

#[test]
fn control_q_exits() {
    let mut app = App::new();
    app.handle_key_events(press(KeyCode::Char('q'), MODIFIER_CONTROL));
    assert!(app.exit);
}

#[test]
fn releases_are_ignored() {
    let mut app = App::new();
    let ev = KeyEvent { code: KeyCode::Char('z'), modifiers: MODIFIER_NONE, kind: KeyEventKind::Release };
    app.handle_key_events(ev);
    let ev = KeyEvent { code: KeyCode::Char('z'), modifiers: MODIFIER_NONE, kind: KeyEventKind::Repeat };
    app.handle_key_events(ev);
    assert_eq!(app.user_message, "");
}

#[test]
fn scroll_keys() {
    let mut app = App::new();
    assert!(matches!(app.handle_key_events(press(KeyCode::Up, MODIFIER_NONE)), Effect::ScrollUp(5)));
    assert!(matches!(app.handle_key_events(press(KeyCode::Down, MODIFIER_NONE)), Effect::ScrollDown(5)));
    assert!(matches!(app.handle_key_events(press(KeyCode::Down, MODIFIER_SHIFT)), Effect::Nothing));
}

#[test]
fn events_from_server() {
    let mut app = App::new();
    assert!(matches!(app.handle_event(Event::Chat("one".to_string())), Effect::Select(0)));
    assert!(matches!(app.handle_event(Event::Chat("two".to_string())), Effect::Select(1)));
    assert!(matches!(app.handle_event(Event::Terminal), Effect::Nothing));
    assert_eq!(app.status, Status::Connected);
    app.handle_event(Event::Disconnect);
    assert_eq!(app.status, Status::Disconnected);
    assert_eq!(app.messages, vec!["one".to_string(), "two".to_string()]);
}

#[test]
fn chat_event_from_reads() {
    assert!(matches!(chat_event(None), Event::Disconnect));
    assert!(matches!(chat_event(Some(&[])), Event::Disconnect));
    match chat_event(Some(b"hey")) {
        Event::Chat(s) => assert_eq!(s, "hey"),
        _ => panic!(),
    }
    match chat_event(Some(&[b'a', 0xff, b'b'])) {
        Event::Chat(s) => assert_eq!(s, "a\u{FFFD}b"),
        _ => panic!(),
    }
}

#[test]
fn wrap_cuts_into_lines() {
    assert_eq!(wrap_text("hello world", 4), vec!["hell", "o wo", "rld"]);
    assert_eq!(wrap_text("abcd", 4), vec!["abcd"]);
    assert_eq!(wrap_text("", 3), Vec::<String>::new());
    assert_eq!(wrap_text("añb", 1), vec!["a", "ñ", "b"]);
}

#[test]
fn layout_sizes() {
    assert_eq!(inner_width(0), 1);
    assert_eq!(inner_width(2), 1);
    assert_eq!(inner_width(3), 1);
    assert_eq!(inner_width(80), 78);
    assert_eq!(input_height(0), 3);
    assert_eq!(input_height(1), 3);
    assert_eq!(input_height(3), 5);
    assert_eq!(input_height(10), 6);
}

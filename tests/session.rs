use payload_pty::app::{pty_size, Action, App};
use payload_pty::codec::CodecError;
use payload_pty::event::{AppEvent, Event, Key};
use payload_pty::pane::{Pane, PANE_COUNT};

fn type_text(app: &mut App, text: &str) {
    for c in text.chars() {
        assert_eq!(app.handle_event(Event::Key(Key::Char(c))), Action::Nothing);
    }
}

#[test]
fn new_session_starts_on_terminal() {
    let app = App::new();
    assert!(app.running());
    assert_eq!(app.current_pane(), Pane::Terminal);
    assert_eq!(app.output_text(), "");
    assert_eq!(app.shellcode_buffer(), "");
    assert_eq!(app.payload_buffer(), "");
}

#[test]
fn pane_cycle_returns_to_start() {
    let start = Pane::initial();
    let mut p = start;
    for _ in 0..PANE_COUNT {
        let q = p.next();
        assert_ne!(q, p);
        p = q;
    }
    assert_eq!(p, start);
    assert_eq!(Pane::Terminal.next(), Pane::ShellCode);
    assert_eq!(Pane::ShellCode.next(), Pane::Payload);
    assert_eq!(Pane::Payload.next(), Pane::Terminal);
}

#[test]
fn pane_switch_events_cycle() {
    let mut app = App::new();
    for _ in 0..PANE_COUNT {
        assert_eq!(app.handle_event(Event::App(AppEvent::PaneSwitch)), Action::Nothing);
    }
    assert_eq!(app.current_pane(), Pane::Terminal);
}

#[test]
fn payload_then_shellcode_scenario() {
    let mut app = App::new();
    app.handle_event(Event::App(AppEvent::PaneSwitch));
    app.handle_event(Event::App(AppEvent::PaneSwitch));
    assert_eq!(app.current_pane(), Pane::Payload);
    type_text(&mut app, "\\x43\\x44");
    app.handle_event(Event::App(AppEvent::PaneSwitch));
    app.handle_event(Event::App(AppEvent::PaneSwitch));
    assert_eq!(app.current_pane(), Pane::ShellCode);
    type_text(&mut app, "\\x41\\x42");
    let action = app.handle_event(Event::Key(Key::Enter));
    assert_eq!(action, Action::Transmit(vec![0x43, 0x44, 0x41, 0x42]));
    assert_eq!(app.payload_buffer(), "\\x43\\x44");
    assert_eq!(app.shellcode_buffer(), "\\x41\\x42");
}

#[test]
fn terminal_pane_sends_keys_at_once() {
    let mut app = App::new();
    assert_eq!(app.handle_event(Event::Key(Key::Char('l'))), Action::Transmit(vec![b'l']));
    assert_eq!(app.handle_event(Event::Key(Key::Enter)), Action::Transmit(vec![b'\n']));
    assert_eq!(app.shellcode_buffer(), "");
    assert_eq!(app.payload_buffer(), "");
}

#[test]
fn control_keys_in_every_pane() {
    let mut app = App::new();
    for _ in 0..PANE_COUNT {
        assert_eq!(app.handle_event(Event::Key(Key::Esc)), Action::Control(AppEvent::Quit));
        assert_eq!(
            app.handle_event(Event::Key(Key::Tab)),
            Action::Control(AppEvent::PaneSwitch)
        );
        assert!(app.running());
        app.handle_event(Event::App(AppEvent::PaneSwitch));
    }
    assert_eq!(app.shellcode_buffer(), "");
    assert_eq!(app.payload_buffer(), "");
}

#[test]
fn malformed_buffer_is_rejected_and_kept() {
    let mut app = App::new();
    app.handle_event(Event::App(AppEvent::PaneSwitch));
    type_text(&mut app, "\\xzz");
    let action = app.handle_event(Event::Key(Key::Enter));
    assert_eq!(action, Action::Rejected(CodecError::MalformedToken));
    assert!(app.running());
    assert_eq!(app.shellcode_buffer(), "\\xzz");
}

#[test]
fn other_input_does_nothing() {
    let mut app = App::new();
    assert_eq!(app.handle_event(Event::Tick), Action::Nothing);
    assert_eq!(app.handle_event(Event::Terminal), Action::Nothing);
    assert_eq!(app.handle_event(Event::Key(Key::Other)), Action::Nothing);
    assert_eq!(app.current_pane(), Pane::Terminal);
    assert!(app.running());
}

#[test]
fn quit_stops_everything() {
    let mut app = App::new();
    assert_eq!(app.handle_event(Event::App(AppEvent::Quit)), Action::Nothing);
    assert!(!app.running());
    assert_eq!(app.handle_event(Event::Key(Key::Char('a'))), Action::Nothing);
    assert_eq!(app.handle_event(Event::Key(Key::Enter)), Action::Nothing);
    assert_eq!(app.handle_event(Event::App(AppEvent::PaneSwitch)), Action::Nothing);
    assert_eq!(app.handle_event(Event::App(AppEvent::Quit)), Action::Nothing);
    assert_eq!(app.current_pane(), Pane::Terminal);
    app.receive_output(b"late output");
    assert_eq!(app.output_text(), "");
    assert!(!app.running());
}

#[test]
fn output_is_collected() {
    let mut app = App::new();
    app.receive_output(b"hello\nwor");
    app.receive_text("ld");
    assert_eq!(app.output_text(), "hello\nworld");
}

#[test]
fn invalid_utf8_is_replaced() {
    let mut app = App::new();
    app.receive_output(&[b'a', 0xff, b'b']);
    assert_eq!(app.output_text(), "a\u{fffd}b");
}

#[test]
fn pty_takes_half_the_width() {
    assert_eq!(pty_size(81, 24), (40, 24));
    assert_eq!(pty_size(0, 0), (0, 0));
}

#[test]
fn newest_hundred_lines_of_output_are_kept() {
    let mut app = App::new();
    for i in 0..150 {
        app.receive_output(format!("line{}\n", i).as_bytes());
    }
    assert_eq!(app.output_len(), 100);
    let expected: Vec<String> = (50..150).map(|i| format!("line{}", i)).collect();
    assert_eq!(app.output_text(), expected.join("\n"));
}

#[test]
fn single_line_output() {
    let mut app = App::new();
    app.receive_output(b"a\n");
    assert_eq!(app.output_len(), 1);
    assert_eq!(app.output_text(), "a");
}

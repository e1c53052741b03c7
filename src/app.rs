use vstd::prelude::*;

use crate::codec::{assemble, assemble_spec, CodecError};
use crate::event::{AppEvent, Event, Key};
use crate::pane::{next_pane, Pane};
use crate::scroll::{join_lines, lines_of, merge_lines, split_pieces, trim, ScrollBuffer};

verus! {

/// The state of a session, as contracts speak of it.
pub struct AppState {
    pub running: bool,
    pub pane: Pane,
    /// The output history as pieces between newlines (see `ScrollBuffer::pieces`);
    /// its lines are `lines_of(output)`.
    pub output: Seq<Seq<char>>,
    pub shellcode: Seq<char>,
    pub payload: Seq<char>,
}

/// What the session asks its driver to do after an event, as contracts speak of it.
pub enum Effect {
    Nothing,
    Transmit(Seq<u8>),
    Control(AppEvent),
    Rejected(CodecError),
}

/// What the driver of the session must do after an event.
#[derive(Debug, PartialEq, Eq)]
pub enum Action {
    /// Nothing to do.
    Nothing,
    /// Write these bytes to the process's input channel.
    Transmit(Vec<u8>),
    /// Put this control request on the event stream.
    Control(AppEvent),
    /// Tell the operator that the composed text could not be decoded.
    Rejected(CodecError),
}

impl View for Action {
    type V = Effect;

    open spec fn view(&self) -> Effect {
        match self {
            Action::Nothing => Effect::Nothing,
            Action::Transmit(v) => Effect::Transmit(v@),
            Action::Control(e) => Effect::Control(*e),
            Action::Rejected(e) => Effect::Rejected(*e),
        }
    }
}

/// The byte sent for a typed character: the low byte of its code point.
pub open spec fn char_byte(c: char) -> u8 {
    (c as u32) as u8
}

/// The state of a new session.
pub open spec fn initial_state() -> AppState {
    AppState {
        running: true,
        pane: Pane::Terminal,
        output: split_pieces(Seq::empty()),
        shellcode: Seq::empty(),
        payload: Seq::empty(),
    }
}

/// How a key press is routed in the active pane.
pub open spec fn key_step(s: AppState, key: Key) -> (AppState, Effect) {
    match key {
        Key::Esc => (s, Effect::Control(AppEvent::Quit)),
        Key::Tab => (s, Effect::Control(AppEvent::PaneSwitch)),
        Key::Char(c) => match s.pane {
            Pane::Terminal => (s, Effect::Transmit(seq![char_byte(c)])),
            Pane::ShellCode => (AppState { shellcode: s.shellcode.push(c), ..s }, Effect::Nothing),
            Pane::Payload => (AppState { payload: s.payload.push(c), ..s }, Effect::Nothing),
        },
        Key::Enter => match s.pane {
            Pane::Terminal => (s, Effect::Transmit(seq![10u8])),
            _ => match assemble_spec(s.payload, s.shellcode) {
                Ok(bytes) => (s, Effect::Transmit(bytes)),
                Err(e) => (s, Effect::Rejected(e)),
            },
        },
        Key::Other => (s, Effect::Nothing),
    }
}

/// How the session handles one event; a stopped session ignores every event.
pub open spec fn step(s: AppState, ev: Event) -> (AppState, Effect) {
    if !s.running {
        (s, Effect::Nothing)
    } else {
        match ev {
            Event::Tick => (s, Effect::Nothing),
            Event::Terminal => (s, Effect::Nothing),
            Event::Key(k) => key_step(s, k),
            Event::App(AppEvent::Quit) => (AppState { running: false, ..s }, Effect::Nothing),
            Event::App(AppEvent::PaneSwitch) => (
                AppState { pane: next_pane(s.pane), ..s },
                Effect::Nothing,
            ),
        }
    }
}

/// The state after a series of events, and what was asked after each.
pub open spec fn run_events(s: AppState, evs: Seq<Event>) -> (AppState, Seq<Effect>)
    decreases evs.len(),
{
    if evs.len() == 0 {
        (s, Seq::empty())
    } else {
        let (mid, effects) = run_events(s, evs.drop_last());
        let (end, last) = step(mid, evs.last());
        (end, effects.push(last))
    }
}

/// Relies on String::push: the character is added at the end of the string.
#[verifier::external_body]
fn push_char(s: &mut String, c: char)
    ensures
        final(s)@ == old(s)@.push(c),
{
    s.push(c)
}

/// What `String::from_utf8_lossy` makes of some bytes.
pub uninterp spec fn utf8_lossy(b: Seq<u8>) -> Seq<char>;

/// Relies on String::from_utf8_lossy: the bytes read as UTF-8, each invalid
/// sequence replaced by U+FFFD; the text depends on the bytes alone.
#[verifier::external_body]
fn bytes_to_text(data: &[u8]) -> (r: String)
    ensures
        r@ == utf8_lossy(data@),
{
    String::from_utf8_lossy(data).into_owned()
}

/// A session: the output history, the active pane and the two composition buffers.
pub struct App {
    running: bool,
    current_pane: Pane,
    pty_buffer: ScrollBuffer,
    shellcode_buffer: String,
    payload_buffer: String,
}

impl View for App {
    type V = AppState;

    closed spec fn view(&self) -> AppState {
        AppState {
            running: self.running,
            pane: self.current_pane,
            output: self.pty_buffer.pieces(),
            shellcode: self.shellcode_buffer@,
            payload: self.payload_buffer@,
        }
    }
}

impl App {
    /// The session's output history is well formed.
    pub closed spec fn wf(&self) -> bool {
        self.pty_buffer.wf()
    }

    /// Whether the session still runs.
    pub fn running(&self) -> (r: bool)
        ensures
            r == self@.running,
    {
        self.running
    }

    /// The active pane.
    pub fn current_pane(&self) -> (r: Pane)
        ensures
            r == self@.pane,
    {
        self.current_pane
    }

    /// The text typed into the shellcode pane.
    pub fn shellcode_buffer(&self) -> (r: &str)
        ensures
            r@ == self@.shellcode,
    {
        self.shellcode_buffer.as_str()
    }

    /// The text typed into the payload pane.
    pub fn payload_buffer(&self) -> (r: &str)
        ensures
            r@ == self@.payload,
    {
        self.payload_buffer.as_str()
    }

    /// Number of lines in the output history.
    pub fn output_len(&self) -> (r: usize)
        requires
            self.wf(),
        ensures
            r == lines_of(self@.output).len(),
    {
        self.pty_buffer.len()
    }

    /// A running session on the terminal pane, with nothing received or composed.
    pub fn new() -> (r: App)
        ensures
            r@ == initial_state(),
            r.wf(),
    {
        App {
            running: true,
            current_pane: Pane::initial(),
            pty_buffer: ScrollBuffer::new(),
            shellcode_buffer: String::new(),
            payload_buffer: String::new(),
        }
    }

    /// Called on each timer tick; the session keeps no timed state.
    pub fn tick(&self) {
    }

    /// Decodes the payload and shellcode buffers into the bytes to send, payload
    /// first. The buffers are left as they are.
    pub fn send_code(&self) -> (r: Result<Vec<u8>, CodecError>)
        ensures
            match r {
                Ok(v) => assemble_spec(self@.payload, self@.shellcode) == Ok::<
                    Seq<u8>,
                    CodecError,
                >(v@),
                Err(e) => assemble_spec(self@.payload, self@.shellcode) == Err::<
                    Seq<u8>,
                    CodecError,
                >(e),
            },
    {
        assemble(self.payload_buffer.as_str(), self.shellcode_buffer.as_str())
    }

    /// Routes a key press: quit and pane-switch keys become control requests in
    /// every pane; on the terminal pane characters and Enter are sent at once; on a
    /// composition pane characters go to its buffer and Enter sends the decoded
    /// buffers.
    pub fn handle_key_event(&mut self, key: Key) -> (r: Action)
        requires
            old(self).wf(),
        ensures
            final(self).wf(),
            (final(self)@, r@) == key_step(old(self)@, key),
    {
        match key {
            Key::Esc => Action::Control(AppEvent::Quit),
            Key::Tab => Action::Control(AppEvent::PaneSwitch),
            Key::Char(c) => match self.current_pane {
                Pane::Terminal => {
                    let mut bytes: Vec<u8> = Vec::new();
                    bytes.push((c as u32) as u8);
                    proof {
                        assert(bytes@ =~= seq![char_byte(c)]);
                    }
                    Action::Transmit(bytes)
                },
                Pane::ShellCode => {
                    push_char(&mut self.shellcode_buffer, c);
                    Action::Nothing
                },
                Pane::Payload => {
                    push_char(&mut self.payload_buffer, c);
                    Action::Nothing
                },
            },
            Key::Enter => match self.current_pane {
                Pane::Terminal => {
                    let mut bytes: Vec<u8> = Vec::new();
                    bytes.push(10u8);
                    proof {
                        assert(bytes@ =~= seq![10u8]);
                    }
                    Action::Transmit(bytes)
                },
                _ => match self.send_code() {
                    Ok(bytes) => Action::Transmit(bytes),
                    Err(e) => Action::Rejected(e),
                },
            },
            Key::Other => Action::Nothing,
        }
    }

    /// Handles one event of the stream and says what the driver must do next.
    pub fn handle_event(&mut self, ev: Event) -> (r: Action)
        requires
            old(self).wf(),
        ensures
            final(self).wf(),
            (final(self)@, r@) == step(old(self)@, ev),
    {
        if !self.running {
            return Action::Nothing;
        }
        match ev {
            Event::Tick => {
                self.tick();
                Action::Nothing
            },
            Event::Terminal => Action::Nothing,
            Event::Key(k) => self.handle_key_event(k),
            Event::App(AppEvent::Quit) => {
                self.running = false;
                Action::Nothing
            },
            Event::App(AppEvent::PaneSwitch) => {
                self.current_pane = self.current_pane.next();
                Action::Nothing
            },
        }
    }

    /// Adds text received from the process to the output history; a stopped
    /// session takes no more output.
    pub fn receive_text(&mut self, text: &str)
        requires
            old(self).wf(),
        ensures
            final(self).wf(),
            !old(self)@.running ==> final(self)@ == old(self)@,
            old(self)@.running ==> final(self)@ == (AppState {
                output: trim(merge_lines(old(self)@.output, split_pieces(text@))),
                ..old(self)@
            }),
    {
        if self.running {
            self.pty_buffer.append(text);
        }
    }

    /// Adds a chunk of bytes read from the process to the output history, read as
    /// UTF-8 with invalid sequences replaced.
    pub fn receive_output(&mut self, data: &[u8])
        requires
            old(self).wf(),
        ensures
            final(self).wf(),
            !old(self)@.running ==> final(self)@ == old(self)@,
            old(self)@.running ==> final(self)@ == (AppState {
                output: trim(merge_lines(old(self)@.output, split_pieces(utf8_lossy(data@)))),
                ..old(self)@
            }),
    {
        let text = bytes_to_text(data);
        self.receive_text(text.as_str());
    }

    /// The output history as one text, lines separated by newlines.
    pub fn output_text(&self) -> (r: String)
        requires
            self.wf(),
        ensures
            r@ == join_lines(lines_of(self@.output)),
    {
        self.pty_buffer.render_text()
    }
}

/// The size given to the pseudo-terminal for a display area: half its width,
/// all its height.
pub fn pty_size(area_width: u16, area_height: u16) -> (r: (u16, u16))
    ensures
        r.0 == area_width / 2,
        r.1 == area_height,
{
    (area_width / 2, area_height)
}

/// Once a quit request has been handled the session is stopped, and every later
/// event leaves it exactly as it is and asks for nothing: no bytes are sent and
/// no key is routed.
pub proof fn lemma_quit_is_final(s: AppState, evs: Seq<Event>)
    ensures
        !step(s, Event::App(AppEvent::Quit)).0.running,
        run_events(step(s, Event::App(AppEvent::Quit)).0, evs).0 == step(
            s,
            Event::App(AppEvent::Quit),
        ).0,
        forall|i: int|
            0 <= i < evs.len() ==> #[trigger] run_events(
                step(s, Event::App(AppEvent::Quit)).0,
                evs,
            ).1[i] == Effect::Nothing,
        run_events(step(s, Event::App(AppEvent::Quit)).0, evs).1.len() == evs.len(),
    decreases evs.len(),
{
    if evs.len() > 0 {
        lemma_quit_is_final(s, evs.drop_last());
    }
}

} // verus!

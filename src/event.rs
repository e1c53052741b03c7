use vstd::prelude::*;

verus! {

/// Control requests that parts of the session send to the event stream.
#[derive(Clone, Copy, Debug, PartialEq, Eq, Structural)]
pub enum AppEvent {
    Quit,
    PaneSwitch,
}

/// A pressed key, as far as the session tells keys apart.
#[derive(Clone, Copy, Debug, PartialEq, Eq, Structural)]
pub enum Key {
    Esc,
    Tab,
    Enter,
    Char(char),
    Other,
}

/// One event of the merged event stream.
#[derive(Clone, Copy, Debug, PartialEq, Eq, Structural)]
pub enum Event {
    /// A timer tick.
    Tick,
    /// A key press from the terminal.
    Key(Key),
    /// Any other terminal input: a key release or repeat, a resize, the mouse.
    Terminal,
    /// A control request.
    App(AppEvent),
}

} // verus!

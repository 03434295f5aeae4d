//! The terminal client's state and rules: what each key does to the message
//! being typed, what is sent, how the chat log grows, how a read from the
//! server becomes an event, and how text is wrapped to the screen's width.
//! Drawing and the terminal itself are the caller's.

use vstd::prelude::*;
use crate::text::{push_char, pop_char, lossy_string, utf8_lossy};

verus! {

/// No modifier key held (crossterm's `KeyModifiers::NONE`).
pub const MODIFIER_NONE: u8 = 0;

/// Shift held (crossterm's `KeyModifiers::SHIFT`).
pub const MODIFIER_SHIFT: u8 = 1;

/// Control held (crossterm's `KeyModifiers::CONTROL`).
pub const MODIFIER_CONTROL: u8 = 2;

/// How many lines one press of Up or Down moves the chat's selection.
pub const SCROLL_STEP: u16 = 5;

/// The keys the client tells apart.
#[derive(Clone, Copy, Debug, PartialEq, Eq, Structural)]
pub enum KeyCode {
    Char(char),
    Backspace,
    Enter,
    Esc,
    Up,
    Down,
    Other,
}

/// Whether a key went down, repeats or went up.
#[derive(Clone, Copy, Debug, PartialEq, Eq, Structural)]
pub enum KeyEventKind {
    Press,
    Repeat,
    Release,
}

/// A key event: the key, the bits of the modifiers held, and its kind.
#[derive(Clone, Copy, Debug, PartialEq, Eq, Structural)]
pub struct KeyEvent {
    pub code: KeyCode,
    pub modifiers: u8,
    pub kind: KeyEventKind,
}

/// What the client's loop receives.
pub enum Event {
    /// A key from the terminal.
    Key(KeyEvent),
    /// Any other terminal event.
    Terminal,
    /// Text from the server.
    Chat(String),
    /// The connection to the server ended.
    Disconnect,
}

/// Whether the client is still connected.
#[derive(Clone, Copy, Debug, PartialEq, Eq, Structural)]
pub enum Status {
    Connected,
    Disconnected,
}

/// What the caller is to do after an event.
pub enum Effect {
    Nothing,
    /// Send `message` to the server and select the chat line `select`.
    Send { message: String, select: usize },
    /// Select the chat line `select`.
    Select(usize),
    /// Move the chat's selection up by this many lines.
    ScrollUp(u16),
    /// Move the chat's selection down by this many lines.
    ScrollDown(u16),
}

/// What a key event means.
pub enum KeyAction {
    Exit,
    DeleteLast,
    Clear,
    Submit,
    Type(char),
    ScrollUp,
    ScrollDown,
    Ignore,
}

/// The client's state: whether to exit, the chat log, the message being
/// typed, and the connection's status.
pub struct App {
    pub exit: bool,
    pub messages: Vec<String>,
    pub user_message: String,
    pub status: Status,
}

/// What a key event means: only presses count; Control-Q exits; Backspace,
/// Esc, Enter, Up and Down without modifiers delete, clear, submit and
/// scroll; a character without modifiers or with Shift is typed.
pub open spec fn key_action(e: KeyEvent) -> KeyAction {
    if e.kind != KeyEventKind::Press {
        KeyAction::Ignore
    } else {
        match e.code {
            KeyCode::Char(c) => if c == 'q' && e.modifiers == MODIFIER_CONTROL {
                KeyAction::Exit
            } else if e.modifiers == MODIFIER_NONE || e.modifiers == MODIFIER_SHIFT {
                KeyAction::Type(c)
            } else {
                KeyAction::Ignore
            },
            KeyCode::Backspace => if e.modifiers == MODIFIER_NONE {
                KeyAction::DeleteLast
            } else {
                KeyAction::Ignore
            },
            KeyCode::Esc => if e.modifiers == MODIFIER_NONE {
                KeyAction::Clear
            } else {
                KeyAction::Ignore
            },
            KeyCode::Enter => if e.modifiers == MODIFIER_NONE {
                KeyAction::Submit
            } else {
                KeyAction::Ignore
            },
            KeyCode::Up => if e.modifiers == MODIFIER_NONE {
                KeyAction::ScrollUp
            } else {
                KeyAction::Ignore
            },
            KeyCode::Down => if e.modifiers == MODIFIER_NONE {
                KeyAction::ScrollDown
            } else {
                KeyAction::Ignore
            },
            KeyCode::Other => KeyAction::Ignore,
        }
    }
}

/// The message being typed after action `a`.
pub open spec fn typed(s: Seq<char>, a: KeyAction) -> Seq<char> {
    match a {
        KeyAction::DeleteLast => if s.len() > 0 {
            s.drop_last()
        } else {
            s
        },
        KeyAction::Clear => Seq::empty(),
        KeyAction::Submit => Seq::empty(),
        KeyAction::Type(c) => s.push(c),
        _ => s,
    }
}

/// How a key event changes the client, and what the caller is to do.
pub open spec fn key_post(old: App, new: App, e: KeyEvent, r: Effect) -> bool {
    let a = key_action(e);
    &&& new.status == old.status
    &&& new.exit == (old.exit || a is Exit)
    &&& new.user_message@ == typed(old.user_message@, a)
    &&& new.messages@ == if a is Submit {
        old.messages@.push(old.user_message)
    } else {
        old.messages@
    }
    &&& r == match a {
        KeyAction::Submit => Effect::Send {
            message: old.user_message,
            select: old.messages@.len() as usize,
        },
        KeyAction::ScrollUp => Effect::ScrollUp(SCROLL_STEP),
        KeyAction::ScrollDown => Effect::ScrollDown(SCROLL_STEP),
        _ => Effect::Nothing,
    }
}

fn classify(e: KeyEvent) -> (a: KeyAction)
    ensures
        a == key_action(e),
{
    match e.kind {
        KeyEventKind::Press => {},
        _ => return KeyAction::Ignore,
    }
    match e.code {
        KeyCode::Char(c) => {
            if c == 'q' && e.modifiers == MODIFIER_CONTROL {
                KeyAction::Exit
            } else if e.modifiers == MODIFIER_NONE || e.modifiers == MODIFIER_SHIFT {
                KeyAction::Type(c)
            } else {
                KeyAction::Ignore
            }
        },
        KeyCode::Other => KeyAction::Ignore,
        code => {
            if e.modifiers != MODIFIER_NONE {
                KeyAction::Ignore
            } else {
                match code {
                    KeyCode::Backspace => KeyAction::DeleteLast,
                    KeyCode::Esc => KeyAction::Clear,
                    KeyCode::Enter => KeyAction::Submit,
                    KeyCode::Up => KeyAction::ScrollUp,
                    KeyCode::Down => KeyAction::ScrollDown,
                    _ => KeyAction::Ignore,
                }
            }
        },
    }
}

impl App {
    /// A client that has just connected: nothing typed, nothing received.
    pub fn new() -> (r: App)
        ensures
            !r.exit,
            r.messages@.len() == 0,
            r.user_message@.len() == 0,
            r.status == Status::Connected,
    {
        App { exit: false, messages: Vec::new(), user_message: String::new(), status: Status::Connected }
    }

    /// Adds `message` to the chat log; the result is its line, which the
    /// caller is to select.
    pub fn push_message(&mut self, message: String) -> (r: usize)
        ensures
            final(self).messages@ == old(self).messages@.push(message),
            r == old(self).messages@.len(),
            final(self).exit == old(self).exit,
            final(self).user_message == old(self).user_message,
            final(self).status == old(self).status,
    {
        self.messages.push(message);
        self.messages.len() - 1
    }

    /// Handles a key event.
    pub fn handle_key_events(&mut self, event: KeyEvent) -> (r: Effect)
        ensures
            key_post(*old(self), *final(self), event, r),
    {
        match classify(event) {
            KeyAction::Exit => {
                self.exit = true;
                Effect::Nothing
            },
            KeyAction::DeleteLast => {
                let _ = pop_char(&mut self.user_message);
                Effect::Nothing
            },
            KeyAction::Clear => {
                self.user_message = String::new();
                Effect::Nothing
            },
            KeyAction::Submit => {
                let message = self.user_message.clone();
                let select = self.push_message(self.user_message.clone());
                self.user_message = String::new();
                Effect::Send { message, select }
            },
            KeyAction::Type(c) => {
                push_char(&mut self.user_message, c);
                Effect::Nothing
            },
            KeyAction::ScrollUp => Effect::ScrollUp(SCROLL_STEP),
            KeyAction::ScrollDown => Effect::ScrollDown(SCROLL_STEP),
            KeyAction::Ignore => Effect::Nothing,
        }
    }

    /// Handles one event of the client's loop: keys as
    /// [`App::handle_key_events`] says, text from the server into the chat
    /// log, and the end of the connection into the status.
    pub fn handle_event(&mut self, event: Event) -> (r: Effect)
        ensures
            final(self).status == status_after(old(self).status, event),
            match event {
                Event::Key(k) => key_post(*old(self), *final(self), k, r),
                Event::Chat(m) => {
                    &&& final(self).messages@ == old(self).messages@.push(m)
                    &&& r == Effect::Select(old(self).messages@.len() as usize)
                    &&& final(self).exit == old(self).exit
                    &&& final(self).user_message == old(self).user_message
                    &&& final(self).status == old(self).status
                },
                Event::Disconnect => {
                    &&& final(self).status == Status::Disconnected
                    &&& final(self).messages == old(self).messages
                    &&& final(self).exit == old(self).exit
                    &&& final(self).user_message == old(self).user_message
                    &&& r == Effect::Nothing
                },
                Event::Terminal => *final(self) == *old(self) && r == Effect::Nothing,
            },
    {
        match event {
            Event::Key(k) => self.handle_key_events(k),
            Event::Chat(m) => {
                let line = self.push_message(m);
                Effect::Select(line)
            },
            Event::Disconnect => {
                self.status = Status::Disconnected;
                Effect::Nothing
            },
            Event::Terminal => Effect::Nothing,
        }
    }
}

/// The event a read from the server makes: a failed read (`None`) or an
/// empty one is the end of the connection; any other is text, malformed
/// UTF-8 replaced.
pub fn chat_event(read: Option<&[u8]>) -> (e: Event)
    ensures
        match read {
            Some(b) if b@.len() > 0 => e matches Event::Chat(s) && s@ == utf8_lossy(b@),
            _ => e is Disconnect,
        },
{
    match read {
        Some(b) => {
            if b.len() == 0 {
                Event::Disconnect
            } else {
                Event::Chat(lossy_string(b))
            }
        },
        None => Event::Disconnect,
    }
}

/// `s` cut into lines of `w` characters, the last one shorter when the
/// length is no multiple of `w`.
pub open spec fn wrap(s: Seq<char>, w: nat) -> Seq<Seq<char>>
    decreases s.len(),
{
    if w == 0 || s.len() == 0 {
        Seq::empty()
    } else if s.len() <= w {
        seq![s]
    } else {
        seq![s.take(w as int)] + wrap(s.skip(w as int), w)
    }
}

/// The text of each line.
pub open spec fn line_texts(lines: Seq<String>) -> Seq<Seq<char>> {
    lines.map_values(|l: String| l@)
}

/// Cuts `message` into lines of `width` characters.
pub fn wrap_text(message: &str, width: usize) -> (lines: Vec<String>)
    requires
        width > 0,
    ensures
        line_texts(lines@) == wrap(message@, width as nat),
{
    let n = message.unicode_len();
    let mut lines: Vec<String> = Vec::new();
    let mut pos: usize = 0;
    proof {
        assert(message@.skip(0) =~= message@);
        assert(line_texts(lines@) + wrap(message@, width as nat) =~= wrap(message@, width as nat));
    }
    while pos < n
        invariant
            pos <= n,
            n == message@.len(),
            width > 0,
            line_texts(lines@) + wrap(message@.skip(pos as int), width as nat) == wrap(
                message@,
                width as nat,
            ),
        decreases n - pos,
    {
        let end = if n - pos > width {
            pos + width
        } else {
            n
        };
        let mut line = String::new();
        let mut i = pos;
        while i < end
            invariant
                pos <= i <= end <= n,
                n == message@.len(),
                line@ == message@.subrange(pos as int, i as int),
            decreases end - i,
        {
            push_char(&mut line, message.get_char(i));
            i = i + 1;
            assert(line@ =~= message@.subrange(pos as int, i as int));
        }
        proof {
            let t = message@.skip(pos as int);
            let w = width as nat;
            if t.len() <= w {
                assert(line@ =~= t);
                assert(message@.skip(end as int) =~= Seq::<char>::empty());
            } else {
                assert(line@ =~= t.take(w as int));
                assert(t.skip(w as int) =~= message@.skip(end as int));
            }
            assert(line_texts(lines@.push(line)) =~= line_texts(lines@).push(line@));
        }
        lines.push(line);
        pos = end;
    }
    proof {
        assert(line_texts(lines@) + Seq::<Seq<char>>::empty() =~= line_texts(lines@));
    }
    lines
}

/// Reading the lines one after another gives back the whole text.
pub proof fn lemma_wrap_flatten(s: Seq<char>, w: nat)
    requires
        w > 0,
    ensures
        wrap(s, w).flatten() == s,
    decreases s.len(),
{
    if s.len() == 0 {
    } else if s.len() <= w {
        let r = seq![s];
        assert(r.drop_first() =~= Seq::<Seq<char>>::empty());
        assert(r.drop_first().flatten() == Seq::<char>::empty());
        assert(r.flatten() =~= s);
    } else {
        lemma_wrap_flatten(s.skip(w as int), w);
        let r = wrap(s, w);
        assert(r.drop_first() =~= wrap(s.skip(w as int), w));
        assert(r.flatten() =~= s);
    }
}

/// Every line holds `w` characters but the last, which holds at least one
/// and at most `w`; and there are as many lines as `w` goes into the length,
/// rounded up.
pub proof fn lemma_wrap_lines(s: Seq<char>, w: nat)
    requires
        w > 0,
    ensures
        wrap(s, w).len() == (s.len() + w - 1) / (w as int),
        forall|k: int| 0 <= k < wrap(s, w).len() - 1 ==> #[trigger] wrap(s, w)[k].len() == w,
        wrap(s, w).len() > 0 ==> 0 < wrap(s, w).last().len() <= w,
    decreases s.len(),
{
    if s.len() == 0 {
        assert((w - 1) / (w as int) == 0) by (nonlinear_arith)
            requires
                w > 0,
        ;
    } else if s.len() <= w {
        assert((s.len() + w - 1) / (w as int) == 1) by (nonlinear_arith)
            requires
                w > 0,
                0 < s.len() <= w,
        ;
    } else {
        let t = s.skip(w as int);
        lemma_wrap_lines(t, w);
        let r = wrap(s, w);
        assert((s.len() + w - 1) / (w as int) == (t.len() + w - 1) / (w as int) + 1) by (nonlinear_arith)
            requires
                w > 0,
                t.len() == s.len() - w,
        ;
        assert forall|k: int| 0 <= k < r.len() - 1 implies #[trigger] r[k].len() == w by {
            if k > 0 {
                assert(r[k] == wrap(t, w)[k - 1]);
            }
        }
    }
}

/// The width inside a bordered box `width` columns wide: two less, but at
/// least one.
pub fn inner_width(width: u16) -> (r: u16)
    ensures
        r == if width >= 3 {
            (width - 2) as u16
        } else {
            1u16
        },
{
    let inner = if width >= 2 {
        width - 2
    } else {
        0
    };
    if inner < 1 {
        1
    } else {
        inner
    }
}

/// The height of the input box for `lines` lines of text: the lines (at
/// least one) and the two borders, but at most six.
pub fn input_height(lines: usize) -> (r: u16)
    requires
        lines <= usize::MAX - 2,
    ensures
        r == if lines <= 1 {
            3
        } else if lines >= 4 {
            6
        } else {
            lines + 2
        },
{
    let shown = if lines < 1 {
        1
    } else {
        lines
    };
    let h = shown + 2;
    if h < 6 {
        h as u16
    } else {
        6
    }
}

/// Typing a character and then pressing Backspace leaves the message as it
/// was.
pub proof fn lemma_type_then_delete(s: Seq<char>, c: char)
    ensures
        typed(typed(s, KeyAction::Type(c)), KeyAction::DeleteLast) == s,
{
    assert(s.push(c).drop_last() =~= s);
}

/// The connection's status after an event: only the end of the connection
/// changes it.
pub open spec fn status_after(status: Status, e: Event) -> Status {
    if e is Disconnect {
        Status::Disconnected
    } else {
        status
    }
}

/// The status after a run of events, the first event first.
pub open spec fn status_run(status: Status, events: Seq<Event>) -> Status
    decreases events.len(),
{
    if events.len() == 0 {
        status
    } else {
        status_run(status_after(status, events[0]), events.drop_first())
    }
}

/// Over any run of the client's loop, the status is disconnected exactly
/// when it started so or an end of the connection came; nothing sets it back
/// to connected.
pub proof fn lemma_status_run(status: Status, events: Seq<Event>)
    ensures
        (status_run(status, events) == Status::Disconnected) <==> (status == Status::Disconnected
            || exists|k: int| 0 <= k < events.len() && #[trigger] events[k] is Disconnect),
    decreases events.len(),
{
    if events.len() > 0 {
        let s1 = status_after(status, events[0]);
        lemma_status_run(s1, events.drop_first());
        if exists|k: int| 0 <= k < events.drop_first().len() && #[trigger] events.drop_first()[k] is Disconnect {
            let k = choose|k: int| 0 <= k < events.drop_first().len() && #[trigger] events.drop_first()[k] is Disconnect;
            assert(events[k + 1] is Disconnect);
        }
        if exists|k: int| 0 <= k < events.len() && #[trigger] events[k] is Disconnect {
            let k = choose|k: int| 0 <= k < events.len() && #[trigger] events[k] is Disconnect;
            if k > 0 {
                assert(events.drop_first()[k - 1] is Disconnect);
            }
        }
    }
}

/// A character pressed without modifiers or with Shift is typed: it is
/// appended to the message, and nothing else changes; in particular the
/// client does not exit, whatever the character.
pub proof fn lemma_typing_a_character(old: App, new: App, c: char, modifiers: u8, r: Effect)
    requires
        modifiers == MODIFIER_NONE || modifiers == MODIFIER_SHIFT,
        key_post(old, new, KeyEvent { code: KeyCode::Char(c), modifiers, kind: KeyEventKind::Press }, r),
    ensures
        new.user_message@ == old.user_message@.push(c),
        new.exit == old.exit,
        new.messages@ == old.messages@,
        new.status == old.status,
        r == Effect::Nothing,
{
}

/// Only Control-Q makes the client exit.
pub proof fn lemma_only_control_q_exits(old: App, new: App, e: KeyEvent, r: Effect)
    requires
        key_post(old, new, e, r),
        !old.exit,
        new.exit,
    ensures
        e.kind == KeyEventKind::Press,
        e.code == KeyCode::Char('q'),
        e.modifiers == MODIFIER_CONTROL,
{
}

} // verus!

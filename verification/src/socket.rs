//! The revocation listener: frames, commands, and what to do after each
//! event on the control channel.

use vstd::prelude::*;

use crate::error::Error;
use crate::forest::{in_subtree, is_preorder, spec_revoke};
use crate::table::Table;
use crate::text::{split_words, str_eq, texts, trim, trimmed, words};

verus! {

/// How long to wait before dialling again, in milliseconds.
pub const RETRY_DELAY_MS: u64 = 1000;

/// The length of the prefix of a frame, in bytes.
pub const HEADER_LEN: u32 = 4;

/// The number that four bytes write, most significant first.
pub open spec fn spec_frame_length(header: Seq<u8>) -> int {
    ((header[0] as int * 256 + header[1] as int) * 256 + header[2] as int) * 256
        + header[3] as int
}

/// The length of the payload that follows the prefix `header`.
pub fn frame_length(header: &[u8; 4]) -> (len: u32)
    ensures
        len as int == spec_frame_length(header@),
{
    let a: u32 = header[0] as u32;
    let b: u32 = header[1] as u32;
    let c: u32 = header[2] as u32;
    let d: u32 = header[3] as u32;
    ((a * 256 + b) * 256 + c) * 256 + d
}

/// A command of the control channel.
#[derive(Debug)]
pub enum Command {
    /// Revoke the dataset named.
    Revoke(String),
}

/// The command that the payload `s` writes: `revoke` and a dataset name,
/// separated by white space. Whatever follows the name is ignored.
pub open spec fn spec_parse_message(s: Seq<char>) -> Option<Seq<char>> {
    let w = words(trimmed(s));
    if w.len() >= 2 && w[0] == "revoke"@ {
        Some(w[1])
    } else {
        None
    }
}

/// Reads a command from the payload of a frame.
pub fn parse_message(s: &str) -> (r: Option<Command>)
    ensures
        match r {
            Some(Command::Revoke(dataset)) => spec_parse_message(s@) == Some(dataset@),
            None => spec_parse_message(s@) is None,
        },
{
    let text = trim(s);
    let mut tokens = split_words(text.as_str());
    if tokens.len() < 2 {
        return None;
    }
    assert(texts(tokens@)[0] == tokens@[0]@);
    assert(texts(tokens@)[1] == tokens@[1]@);
    if !str_eq(tokens[0].as_str(), "revoke") {
        return None;
    }
    let dataset = tokens.swap_remove(1);
    Some(Command::Revoke(dataset))
}

/// Carries out the command that the payload `s` writes, if it writes
/// one: revokes the dataset named and returns the keys of what was
/// removed, in pre-order, for the caller to delete and to persist the
/// store. A payload that writes no command leaves the store as it is.
pub fn handle_message(s: &str, state: &mut Table) -> (r: Result<Option<Vec<String>>, Error>)
    requires
        old(state).wf(),
    ensures
        final(state).wf(),
        match spec_parse_message(s@) {
            Some(dataset) => if old(state)@.dom().contains(dataset) {
                &&& r matches Ok(Some(removed))
                &&& final(state)@ == spec_revoke(old(state)@, dataset)
                &&& texts(removed@).len() > 0
                &&& texts(removed@)[0] == dataset
                &&& is_preorder(old(state)@, texts(removed@))
                &&& forall|k: Seq<char>|
                    texts(removed@).contains(k) <==> in_subtree(old(state)@, dataset, k)
            } else {
                r == Err::<Option<Vec<String>>, Error>(Error::NotFound) && final(state)@ == old(
                    state,
                )@
            },
            None => r == Ok::<Option<Vec<String>>, Error>(None) && final(state)@ == old(state)@,
        },
{
    match parse_message(s) {
        Some(Command::Revoke(dataset)) => {
            let removed = state.revoke(dataset.as_str())?;
            Ok(Some(removed))
        },
        None => Ok(None),
    }
}

/// What a read on the control channel came to.
#[derive(Debug, Clone, Copy, PartialEq, Eq, Structural)]
pub enum ReadResult {
    /// The bytes asked for arrived.
    Complete,
    /// Nothing has arrived yet.
    WouldBlock,
    /// The read failed.
    Failed,
}

/// What to do after a read.
#[derive(Debug, Clone, Copy, PartialEq, Eq, Structural)]
pub enum ReadStep {
    /// The bytes are there.
    Done,
    /// Read again.
    Retry,
    /// Give up.
    Abort,
}

/// Decides what follows a read: a read that would block is repeated until
/// shutdown is requested; a failed read ends the listener.
pub fn read_stream(result: ReadResult, exit_condition: bool) -> (step: ReadStep)
    ensures
        step == match result {
            ReadResult::Complete => ReadStep::Done,
            ReadResult::WouldBlock => if exit_condition {
                ReadStep::Abort
            } else {
                ReadStep::Retry
            },
            ReadResult::Failed => ReadStep::Abort,
        },
{
    match result {
        ReadResult::Complete => ReadStep::Done,
        ReadResult::WouldBlock => if exit_condition {
            ReadStep::Abort
        } else {
            ReadStep::Retry
        },
        ReadResult::Failed => ReadStep::Abort,
    }
}

/// Where the listener stands.
#[derive(Debug, Clone, Copy, PartialEq, Eq, Structural)]
pub enum Listener {
    /// Dialling the control endpoint.
    Connecting,
    /// Waiting out the delay before dialling again.
    Waiting,
    /// Waiting for the length prefix of a frame.
    AwaitLength,
    /// Waiting for a payload of the given length.
    AwaitPayload(u32),
    /// Waiting for the host to carry out the command of a payload.
    Delivering,
    /// Over.
    Stopped,
}

/// What happened on the control channel.
#[derive(Debug)]
pub enum Event {
    /// The endpoint did not answer.
    ConnectFailed,
    /// The connection stands.
    Connected,
    /// The delay is over.
    Waited,
    /// The payload was handed to `handle_message` and the store persisted.
    Delivered,
    /// The bytes asked for arrived.
    Bytes(Vec<u8>),
    /// Nothing has arrived yet.
    WouldBlock,
    /// The read failed.
    ReadFailed,
}

/// What the host of the listener is asked to do next.
#[derive(Debug, PartialEq, Eq)]
pub enum Action {
    /// Dial the control endpoint.
    Connect,
    /// Wait this many milliseconds.
    RetryAfter(u64),
    /// Read exactly this many bytes.
    Read(u32),
    /// Hand the payload to `handle_message` and persist the store.
    Deliver(Vec<u8>),
    /// End the process: shutdown was requested before a connection stood.
    Exit,
    /// Request process-wide shutdown and end the listener.
    Shutdown,
}

/// An action as plain values.
pub enum ActionView {
    Connect,
    RetryAfter(u64),
    Read(u32),
    Deliver(Seq<u8>),
    Exit,
    Shutdown,
}

impl Action {
    pub open spec fn view(&self) -> ActionView {
        match self {
            Action::Connect => ActionView::Connect,
            Action::RetryAfter(ms) => ActionView::RetryAfter(*ms),
            Action::Read(n) => ActionView::Read(*n),
            Action::Deliver(payload) => ActionView::Deliver(payload@),
            Action::Exit => ActionView::Exit,
            Action::Shutdown => ActionView::Shutdown,
        }
    }
}

/// One step of the listener: the state and the action after `event`,
/// given whether shutdown was requested.
pub open spec fn spec_spawn(state: Listener, event: Event, exit_condition: bool) -> (
    Listener,
    ActionView,
) {
    match (state, event) {
        (Listener::Connecting, Event::Connected) => (
            Listener::AwaitLength,
            ActionView::Read(HEADER_LEN),
        ),
        (Listener::Connecting, Event::ConnectFailed) => if exit_condition {
            (Listener::Stopped, ActionView::Exit)
        } else {
            (Listener::Waiting, ActionView::RetryAfter(RETRY_DELAY_MS))
        },
        (Listener::Waiting, Event::Waited) => (Listener::Connecting, ActionView::Connect),
        (Listener::AwaitLength, Event::Bytes(b)) => if b@.len() == HEADER_LEN {
            (
                Listener::AwaitPayload(spec_frame_length(b@) as u32),
                ActionView::Read(spec_frame_length(b@) as u32),
            )
        } else {
            (Listener::Stopped, ActionView::Shutdown)
        },
        (Listener::AwaitPayload(n), Event::Bytes(b)) => if b@.len() == n {
            (Listener::Delivering, ActionView::Deliver(b@))
        } else {
            (Listener::Stopped, ActionView::Shutdown)
        },
        (Listener::Delivering, Event::Delivered) => (
            Listener::AwaitLength,
            ActionView::Read(HEADER_LEN),
        ),
        (Listener::AwaitLength, Event::WouldBlock) => if exit_condition {
            (Listener::Stopped, ActionView::Shutdown)
        } else {
            (Listener::AwaitLength, ActionView::Read(HEADER_LEN))
        },
        (Listener::AwaitPayload(n), Event::WouldBlock) => if exit_condition {
            (Listener::Stopped, ActionView::Shutdown)
        } else {
            (Listener::AwaitPayload(n), ActionView::Read(n))
        },
        _ => (Listener::Stopped, ActionView::Shutdown),
    }
}

/// The first action of a listener: dial the control endpoint.
pub fn start() -> (r: (Listener, Action))
    ensures
        r.0 == Listener::Connecting,
        r.1@ == ActionView::Connect,
{
    (Listener::Connecting, Action::Connect)
}

/// Takes what happened on the control channel and says what to do next.
/// While dialling, a failure is followed by a fixed delay and another
/// dial, unless shutdown was requested. Once connected, the listener
/// reads a length prefix, then a payload of that length, has it
/// delivered, and reads the next prefix. A failed read, a read that would
/// block after shutdown was requested, and an event that does not fit the
/// state end the listener and request shutdown.
pub fn spawn(state: Listener, event: Event, exit_condition: bool) -> (r: (Listener, Action))
    ensures
        (r.0, r.1@) == spec_spawn(state, event, exit_condition),
{
    match state {
        Listener::Connecting => match event {
            Event::Connected => (Listener::AwaitLength, Action::Read(HEADER_LEN)),
            Event::ConnectFailed => if exit_condition {
                (Listener::Stopped, Action::Exit)
            } else {
                (Listener::Waiting, Action::RetryAfter(RETRY_DELAY_MS))
            },
            _ => (Listener::Stopped, Action::Shutdown),
        },
        Listener::Waiting => match event {
            Event::Waited => (Listener::Connecting, Action::Connect),
            _ => (Listener::Stopped, Action::Shutdown),
        },
        Listener::Delivering => match event {
            Event::Delivered => (Listener::AwaitLength, Action::Read(HEADER_LEN)),
            _ => (Listener::Stopped, Action::Shutdown),
        },
        Listener::AwaitLength => match event {
            Event::Bytes(b) => if b.len() == HEADER_LEN as usize {
                let header: [u8; 4] = [b[0], b[1], b[2], b[3]];
                assert(header@ =~= b@);
                let n = frame_length(&header);
                (Listener::AwaitPayload(n), Action::Read(n))
            } else {
                (Listener::Stopped, Action::Shutdown)
            },
            Event::WouldBlock => match read_stream(ReadResult::WouldBlock, exit_condition) {
                ReadStep::Retry => (Listener::AwaitLength, Action::Read(HEADER_LEN)),
                _ => (Listener::Stopped, Action::Shutdown),
            },
            _ => (Listener::Stopped, Action::Shutdown),
        },
        Listener::AwaitPayload(n) => match event {
            Event::Bytes(b) => if b.len() == n as usize {
                (Listener::Delivering, Action::Deliver(b))
            } else {
                (Listener::Stopped, Action::Shutdown)
            },
            Event::WouldBlock => match read_stream(ReadResult::WouldBlock, exit_condition) {
                ReadStep::Retry => (Listener::AwaitPayload(n), Action::Read(n)),
                _ => (Listener::Stopped, Action::Shutdown),
            },
            _ => (Listener::Stopped, Action::Shutdown),
        },
        Listener::Stopped => (Listener::Stopped, Action::Shutdown),
    }
}

} // verus!

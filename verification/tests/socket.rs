use lh_mount::error::Error;
use lh_mount::socket::{
    frame_length, handle_message, parse_message, read_stream, spawn, start, Action, Command,
    Event, Listener, ReadResult, ReadStep,
};
use lh_mount::table::Table;

#[test]
fn the_prefix_is_big_endian() {
    assert_eq!(frame_length(&[0, 0, 0, 0]), 0);
    assert_eq!(frame_length(&[0, 0, 0, 9]), 9);
    assert_eq!(frame_length(&[0, 0, 1, 2]), 258);
    assert_eq!(frame_length(&[1, 2, 3, 4]), 0x01020304);
    assert_eq!(frame_length(&[255, 255, 255, 255]), u32::MAX);
}

fn revoked(s: &str) -> Option<String> {
    match parse_message(s) {
        Some(Command::Revoke(name)) => Some(name),
        None => None,
    }
}

#[test]
fn only_revoke_is_a_command() {
    assert_eq!(revoked("revoke data"), Some("data".to_string()));
    assert_eq!(revoked("  revoke \t /tmp/x   \n"), Some("/tmp/x".to_string()));
    assert_eq!(revoked("\u{a0}revoke a b c"), Some("a".to_string()));
    assert_eq!(revoked("revoke"), None);
    assert_eq!(revoked("Revoke data"), None);
    assert_eq!(revoked("delete data"), None);
    assert_eq!(revoked(""), None);
    assert_eq!(revoked("revoke\u{a0}data"), None);
}

#[test]
fn a_revoke_message_revokes() {
    let mut table = Table::new();
    table.derive("/d/b", "/d/a", None, None).unwrap();
    assert_eq!(handle_message("hello there", &mut table), Ok(None));
    assert!(table.contains("/d/a"));
    let mut removed = handle_message("revoke /d/a\n", &mut table).unwrap().unwrap();
    removed.sort();
    assert_eq!(removed, vec!["/d/a".to_string(), "/d/b".to_string()]);
    assert!(!table.contains("/d/b"));
    assert_eq!(handle_message("revoke /d/a", &mut table), Err(Error::NotFound));
}

#[test]
fn reads_are_retried_until_shutdown() {
    assert_eq!(read_stream(ReadResult::Complete, false), ReadStep::Done);
    assert_eq!(read_stream(ReadResult::Complete, true), ReadStep::Done);
    assert_eq!(read_stream(ReadResult::WouldBlock, false), ReadStep::Retry);
    assert_eq!(read_stream(ReadResult::WouldBlock, true), ReadStep::Abort);
    assert_eq!(read_stream(ReadResult::Failed, false), ReadStep::Abort);
}

#[test]
fn the_listener_dials_until_connected_or_stopped() {
    assert_eq!(start(), (Listener::Connecting, Action::Connect));
    assert_eq!(
        spawn(Listener::Connecting, Event::ConnectFailed, false),
        (Listener::Waiting, Action::RetryAfter(1000))
    );
    assert_eq!(
        spawn(Listener::Waiting, Event::Waited, false),
        (Listener::Connecting, Action::Connect)
    );
    assert_eq!(
        spawn(Listener::Waiting, Event::Waited, true),
        (Listener::Connecting, Action::Connect)
    );
    assert_eq!(
        spawn(Listener::Connecting, Event::ConnectFailed, true),
        (Listener::Stopped, Action::Exit)
    );
    assert_eq!(
        spawn(Listener::Connecting, Event::Connected, false),
        (Listener::AwaitLength, Action::Read(4))
    );
}

#[test]
fn the_listener_reads_frame_after_frame() {
    let (state, action) = spawn(Listener::AwaitLength, Event::Bytes(vec![0, 0, 0, 11]), false);
    assert_eq!((state, action), (Listener::AwaitPayload(11), Action::Read(11)));
    let payload = b"revoke data".to_vec();
    let (state, action) = spawn(state, Event::Bytes(payload.clone()), false);
    assert_eq!((state, action), (Listener::Delivering, Action::Deliver(payload)));
    assert_eq!(
        spawn(state, Event::Delivered, false),
        (Listener::AwaitLength, Action::Read(4))
    );
    assert_eq!(
        spawn(Listener::AwaitPayload(11), Event::WouldBlock, false),
        (Listener::AwaitPayload(11), Action::Read(11))
    );
    assert_eq!(
        spawn(Listener::AwaitLength, Event::WouldBlock, false),
        (Listener::AwaitLength, Action::Read(4))
    );
}

#[test]
fn a_failed_read_requests_shutdown() {
    assert_eq!(
        spawn(Listener::AwaitLength, Event::ReadFailed, false),
        (Listener::Stopped, Action::Shutdown)
    );
    assert_eq!(
        spawn(Listener::AwaitPayload(3), Event::ReadFailed, false),
        (Listener::Stopped, Action::Shutdown)
    );
    assert_eq!(
        spawn(Listener::AwaitLength, Event::WouldBlock, true),
        (Listener::Stopped, Action::Shutdown)
    );
    assert_eq!(
        spawn(Listener::AwaitPayload(3), Event::Bytes(vec![1, 2]), false),
        (Listener::Stopped, Action::Shutdown)
    );
    assert_eq!(
        spawn(Listener::Stopped, Event::Connected, false),
        (Listener::Stopped, Action::Shutdown)
    );
    // An event that does not fit the state.
    assert_eq!(
        spawn(Listener::Waiting, Event::Connected, false),
        (Listener::Stopped, Action::Shutdown)
    );
    assert_eq!(
        spawn(Listener::Delivering, Event::Bytes(vec![0, 0, 0, 1]), false),
        (Listener::Stopped, Action::Shutdown)
    );
    assert_eq!(
        spawn(Listener::AwaitLength, Event::Delivered, false),
        (Listener::Stopped, Action::Shutdown)
    );
}

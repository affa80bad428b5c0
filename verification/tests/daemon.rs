use sayrat::codec::{read_message, write_message};
use sayrat::daemon::{dispatch, entries_response, DaemonError, Dispatch};
use sayrat::indexer::IndexError;
use sayrat::messages::{Entry, EntryKind, Request, Response};
use sayrat::PROTOCOL_VERSION;

fn exchange(request: Request) -> (Dispatch, bool) {
    let mut bytes = Vec::new();
    write_message(&mut bytes, &request).unwrap_or_else(|err| panic!("write: {err:?}"));
    let received: Request = read_message(&bytes[..]).unwrap_or_else(|err| panic!("read: {err:?}"));
    dispatch(received, "0.1.0")
}

fn reply(dispatched: Dispatch) -> Response {
    match dispatched {
        Dispatch::Reply(response) => {
            let mut bytes = Vec::new();
            write_message(&mut bytes, &response).unwrap();
            read_message(&bytes[..]).unwrap()
        }
        other => panic!("unexpected dispatch: {other:?}"),
    }
}

#[test]
fn daemon_answers_hello_and_ping() {
    let (hello, stop) = exchange(Request::Hello { client_version: String::from("test") });
    assert!(!stop);
    match reply(hello) {
        Response::Hello { protocol_version, daemon_version } => {
            assert_eq!(protocol_version, 1);
            assert_eq!(daemon_version, "0.1.0");
        }
        other => panic!("unexpected hello response: {other:?}"),
    }
    let (pong, stop) = exchange(Request::Ping);
    assert!(!stop);
    assert!(matches!(reply(pong), Response::Pong));
    let (ack, stop) = exchange(Request::Shutdown);
    assert!(stop);
    assert!(matches!(reply(ack), Response::Ack));
    assert_eq!(PROTOCOL_VERSION, 1);
}

#[test]
fn listing_requests_ask_for_the_index() {
    let (listing, stop) = exchange(Request::ListEntries { limit: 25 });
    assert!(!stop);
    assert!(matches!(listing, Dispatch::ListEntries(25)));
}

#[test]
fn listings_become_entry_responses() {
    let entries = vec![Entry {
        id: 3,
        kind: EntryKind::Application,
        name: String::from("Term"),
        subtitle: None,
        command: Some(String::from("xterm")),
        icon: Some(String::from("term")),
    }];
    match entries_response(Ok((entries, true))).unwrap() {
        Response::Entries { items, more } => {
            assert!(more);
            assert_eq!(items.len(), 1);
            assert_eq!(items[0].id, 3);
            assert_eq!(items[0].name, "Term");
            assert_eq!(items[0].command.as_deref(), Some("xterm"));
        }
        other => panic!("unexpected: {other:?}"),
    }
    let err = entries_response(Err(IndexError::InvalidStore("bad index magic"))).err().unwrap();
    assert!(matches!(err, DaemonError::Index(IndexError::InvalidStore("bad index magic"))));
}

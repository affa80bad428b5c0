use std::fmt::Debug;

use sayrat::codec::{read_message, write_message, CodecError, WireDecode, WireEncode, MAX_FRAME_BYTES};
use sayrat::messages::{Entry, EntryKind, EntryRef, Request, Response};

fn round_trip<T>(value: &T) -> T
where
    T: WireEncode + WireDecode + PartialEq + Debug,
{
    let mut bytes = Vec::new();
    write_message(&mut bytes, value).unwrap_or_else(|err| panic!("write failed: {err:?}"));
    let decoded: T = read_message(&bytes[..]).unwrap_or_else(|err| panic!("read failed: {err:?}"));
    assert_eq!(value, &decoded);
    decoded
}

fn round_trip_response(value: &Response) {
    let mut bytes = Vec::new();
    write_message(&mut bytes, value).unwrap_or_else(|err| panic!("write failed: {err:?}"));
    let decoded: Response =
        read_message(&bytes[..]).unwrap_or_else(|err| panic!("read failed: {err:?}"));
    assert_eq!(value, &decoded);
}

#[test]
fn request_round_trips_cover_all_variants() {
    round_trip(&Request::Hello { client_version: String::from("ui/0") });
    round_trip(&Request::Ping);
    round_trip(&Request::Shutdown);
    round_trip(&Request::ListEntries { limit: 25 });
}

#[test]
fn response_round_trips_cover_all_variants() {
    round_trip_response(&Response::Hello {
        daemon_version: String::from("d/0"),
        protocol_version: 1,
    });
    round_trip_response(&Response::Pong);
    round_trip_response(&Response::Ack);
    round_trip_response(&Response::Entries {
        items: vec![EntryRef {
            id: 9,
            kind: EntryKind::Application,
            name: String::from("Terminal"),
            subtitle: Some(String::from("System")),
            command: Some(String::from("xterm")),
            icon: Some(String::from("utilities-terminal")),
        }],
        more: false,
    });
    round_trip_response(&Response::Error { message: String::from("nope") });
}

#[test]
fn oversized_frame_is_rejected() {
    let mut bytes = ((MAX_FRAME_BYTES as u32) + 1).to_le_bytes().to_vec();
    let err = read_message::<Request>(&bytes[..])
        .err()
        .unwrap_or_else(|| panic!("wanted error"));
    assert!(matches!(err, CodecError::FrameTooLarge { .. }));
    bytes.clear();
}

#[test]
fn frame_layout_is_length_then_payload() {
    let mut bytes = Vec::new();
    write_message(&mut bytes, &Request::ListEntries { limit: 0x0102 }).unwrap();
    assert_eq!(bytes, vec![3, 0, 0, 0, 3, 0x02, 0x01]);
    let mut bytes = Vec::new();
    write_message(&mut bytes, &Request::Hello { client_version: String::from("é") }).unwrap();
    assert_eq!(bytes, vec![7, 0, 0, 0, 0, 2, 0, 0, 0, 0xc3, 0xa9]);
}

#[test]
fn write_appends_after_existing_bytes() {
    let mut bytes = vec![0xaa];
    write_message(&mut bytes, &Request::Ping).unwrap();
    write_message(&mut bytes, &Response::Pong).unwrap();
    assert_eq!(bytes, vec![0xaa, 1, 0, 0, 0, 1, 1, 0, 0, 0, 1]);
}

#[test]
fn entry_round_trips_with_unicode_and_missing_fields() {
    let entry = Entry {
        id: u64::MAX,
        kind: EntryKind::PluginCommand,
        name: String::from("Ünïcødé ✓"),
        subtitle: None,
        command: Some(String::new()),
        icon: None,
    };
    round_trip(&entry);
    round_trip(&EntryKind::File);
}

#[test]
fn trailing_bytes_after_a_frame_are_left_unread() {
    let mut bytes = Vec::new();
    write_message(&mut bytes, &Request::Shutdown).unwrap();
    bytes.extend_from_slice(&[9, 9, 9]);
    let decoded: Request = read_message(&bytes[..]).unwrap();
    assert_eq!(decoded, Request::Shutdown);
}

#[test]
fn short_input_is_an_end_of_input_error() {
    let err = read_message::<Request>(&[1, 0]).err().unwrap();
    assert!(matches!(err, CodecError::Io(ref e) if e.kind() == std::io::ErrorKind::UnexpectedEof));
    let err = read_message::<Request>(&[5, 0, 0, 0, 0]).err().unwrap();
    assert!(matches!(err, CodecError::Io(ref e) if e.kind() == std::io::ErrorKind::UnexpectedEof));
}

#[test]
fn invalid_wire_values_are_reported() {
    let cases: Vec<(Vec<u8>, &str)> = vec![
        (vec![1, 0, 0, 0, 9], "invalid request tag"),
        (vec![1, 0, 0, 0, 3], "truncated frame"),
        (vec![9, 0, 0, 0, 0, 2, 0, 0, 0, 0xff, 0xfe, 0, 0], "invalid utf-8"),
    ];
    for (bytes, want) in cases {
        let err = read_message::<Request>(&bytes[..]).err().unwrap();
        assert!(matches!(err, CodecError::InvalidData(msg) if msg == want), "{want}");
    }
    let response_cases: Vec<(Vec<u8>, &str)> = vec![
        (vec![1, 0, 0, 0, 7], "invalid response tag"),
        (vec![2, 0, 0, 0, 3, 2], "invalid bool"),
        (vec![15, 0, 0, 0, 3, 0, 1, 0, 0, 0, 1, 0, 0, 0, 0, 0, 0, 0, 7], "invalid entry kind"),
        (
            vec![24, 0, 0, 0, 3, 1, 1, 0, 0, 0, 1, 0, 0, 0, 0, 0, 0, 0, 0, 1, 0, 0, 0, b'a', 5, 0, 0, 0],
            "invalid option tag",
        ),
    ];
    for (bytes, want) in response_cases {
        let err = read_message::<Response>(&bytes[..]).err().unwrap();
        assert!(matches!(err, CodecError::InvalidData(msg) if msg == want), "{want}");
    }
}

#[test]
fn oversized_message_is_not_written() {
    let mut bytes = vec![7];
    let big = Request::Hello { client_version: "x".repeat(MAX_FRAME_BYTES) };
    let err = write_message(&mut bytes, &big).err().unwrap();
    assert!(matches!(err, CodecError::FrameTooLarge { len } if len == MAX_FRAME_BYTES + 5));
    assert_eq!(bytes, vec![7]);
}

#[test]
fn listing_with_many_entries_round_trips() {
    let items: Vec<EntryRef> = (0..50)
        .map(|i| EntryRef {
            id: i,
            kind: EntryKind::Application,
            name: format!("app {i}"),
            subtitle: None,
            command: Some(format!("run-{i}")),
            icon: None,
        })
        .collect();
    round_trip_response(&Response::Entries { items, more: true });
}

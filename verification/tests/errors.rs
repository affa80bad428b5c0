use sayrat::codec::{decimal_text, decode_payload, frame_length, CodecError};
use sayrat::daemon::{error_response, DaemonError};
use sayrat::indexer::{data_dirs_from, IndexError};
use sayrat::messages::{Entry, EntryKind, EntryRef, Request, Response};

#[test]
fn codec_error_messages() {
    assert_eq!(CodecError::FrameTooLarge { len: 1048577 }.message(), "frame too large: 1048577 bytes");
    assert_eq!(CodecError::FrameTooLarge { len: 0 }.message(), "frame too large: 0 bytes");
    assert_eq!(CodecError::InvalidData("invalid bool").message(), "invalid bool");
    let io = CodecError::from(std::io::Error::new(std::io::ErrorKind::Other, "boom"));
    assert_eq!(io.message(), "I/O error: boom");
}

#[test]
fn index_and_daemon_error_messages() {
    assert_eq!(IndexError::InvalidStore("bad index magic").message(), "bad index magic");
    assert_eq!(
        IndexError::from(CodecError::InvalidData("truncated frame")).message(),
        "codec error: truncated frame"
    );
    assert_eq!(
        DaemonError::from(IndexError::from(CodecError::FrameTooLarge { len: 12 })).message(),
        "index error: codec error: frame too large: 12 bytes"
    );
    assert_eq!(DaemonError::Unsupported("no pipes").message(), "no pipes");
    let io = DaemonError::from(std::io::Error::new(std::io::ErrorKind::Other, "gone"));
    assert_eq!(io.message(), "I/O error: gone");
    assert_eq!(
        DaemonError::from(CodecError::InvalidData("invalid utf-8")).message(),
        "codec error: invalid utf-8"
    );
}

#[test]
fn failed_requests_are_answered_with_the_error_text() {
    let response = error_response(&DaemonError::Index(IndexError::InvalidStore("unsupported schema")));
    assert_eq!(response, Response::Error { message: String::from("index error: unsupported schema") });
}

#[test]
fn frame_length_checks_the_limit() {
    assert_eq!(frame_length(&[0, 0, 16, 0]).unwrap(), 1024 * 1024);
    assert!(matches!(frame_length(&[1, 0, 16, 0]), Err(CodecError::FrameTooLarge { len: 1048577 })));
    assert_eq!(frame_length(&[5, 1, 0, 0, 99]).unwrap(), 261);
}

#[test]
fn payloads_decode_from_their_start() {
    let request: Request = decode_payload(&[3, 7, 0, 1, 2]).unwrap();
    assert_eq!(request, Request::ListEntries { limit: 7 });
    let err = decode_payload::<Request>(&[]).err().unwrap();
    assert!(matches!(err, CodecError::InvalidData("truncated frame")));
}

#[test]
fn data_dirs_are_the_non_empty_pieces() {
    assert_eq!(data_dirs_from(None), vec!["/usr/local/share", "/usr/share"]);
    assert_eq!(data_dirs_from(Some("")), Vec::<String>::new());
    assert_eq!(data_dirs_from(Some("::/a::/b/c:")), vec!["/a", "/b/c"]);
    assert_eq!(data_dirs_from(Some("/only")), vec!["/only"]);
}

#[test]
fn entries_convert_and_clone() {
    let entry = Entry {
        id: 4,
        kind: EntryKind::File,
        name: String::from("doc"),
        subtitle: Some(String::from("a file")),
        command: None,
        icon: Some(String::from("text")),
    };
    let copy = entry.clone();
    assert_eq!(copy, entry);
    let wire = EntryRef::from(&entry);
    assert_eq!(wire.id, 4);
    assert_eq!(wire.kind, EntryKind::File);
    assert_eq!(wire.name, "doc");
    assert_eq!(wire.subtitle.as_deref(), Some("a file"));
    assert_eq!(wire.command, None);
    assert_eq!(wire.icon.as_deref(), Some("text"));
    assert_eq!(wire.clone(), wire);
}


#[test]
fn decimal_text_matches_display() {
    for n in [0usize, 7, 9, 10, 42, 100, 1048576, usize::MAX] {
        assert_eq!(decimal_text(n), format!("{}", n));
    }
}

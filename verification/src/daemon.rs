//! Request dispatch of the daemon.
//!
//! The daemon's loop (accepting clients, reading and writing frames, the
//! shared shutdown flag, reading the index store) runs outside this module;
//! here stand the decisions: what each request is answered with, whether it
//! asks the daemon to stop, and how a listing becomes a response.

use vstd::prelude::*;
use crate::PROTOCOL_VERSION;
use vstd::string::StringExecFns;
use crate::codec::{CodecError, codec_text};
use crate::indexer::index_text;
use crate::trusted::io_error_text;
use crate::indexer::IndexError;
use crate::messages::{Entry, EntryRef, Request, RequestModel, Response, ResponseModel, entry_models};
use crate::table::models;

verus! {

/// Daemon error.
#[derive(Debug)]
pub enum DaemonError {
    /// I/O failed.
    Io(std::io::Error),
    /// IPC codec failed.
    Codec(CodecError),
    /// Index operation failed.
    Index(IndexError),
    /// Unsupported platform feature.
    Unsupported(&'static str),
}

impl From<std::io::Error> for DaemonError {
    fn from(value: std::io::Error) -> (r: Self)
        ensures
            r == DaemonError::Io(value),
    {
        DaemonError::Io(value)
    }
}

impl vstd::std_specs::convert::FromSpecImpl<std::io::Error> for DaemonError {
    open spec fn obeys_from_spec() -> bool {
        true
    }

    open spec fn from_spec(value: std::io::Error) -> Self {
        DaemonError::Io(value)
    }
}

impl From<CodecError> for DaemonError {
    fn from(value: CodecError) -> (r: Self)
        ensures
            r == DaemonError::Codec(value),
    {
        DaemonError::Codec(value)
    }
}

impl vstd::std_specs::convert::FromSpecImpl<CodecError> for DaemonError {
    open spec fn obeys_from_spec() -> bool {
        true
    }

    open spec fn from_spec(value: CodecError) -> Self {
        DaemonError::Codec(value)
    }
}

impl From<IndexError> for DaemonError {
    fn from(value: IndexError) -> (r: Self)
        ensures
            r == DaemonError::Index(value),
    {
        DaemonError::Index(value)
    }
}

impl vstd::std_specs::convert::FromSpecImpl<IndexError> for DaemonError {
    open spec fn obeys_from_spec() -> bool {
        true
    }

    open spec fn from_spec(value: IndexError) -> Self {
        DaemonError::Index(value)
    }
}

/// The text of a daemon error, given the text `io` of the I/O error it may
/// carry.
pub open spec fn daemon_text(e: DaemonError, io: Seq<char>) -> Seq<char> {
    match e {
        DaemonError::Io(_) => "I/O error: "@ + io,
        DaemonError::Codec(c) => "codec error: "@ + codec_text(c, io),
        DaemonError::Index(i) => "index error: "@ + index_text(i, io),
        DaemonError::Unsupported(msg) => msg@,
    }
}

impl DaemonError {
    /// Human-readable description, as a client receives it in an error
    /// response.
    pub fn message(&self) -> (s: String)
        ensures
            exists|io: Seq<char>| s@ == daemon_text(*self, io),
    {
        match self {
            DaemonError::Io(err) => {
                let text = io_error_text(err);
                let s = String::from_str("I/O error: ").concat(text.as_str());
                assert(s@ == daemon_text(*self, text@));
                s
            },
            DaemonError::Codec(err) => {
                let inner = err.message();
                let s = String::from_str("codec error: ").concat(inner.as_str());
                let ghost io = choose|io: Seq<char>| inner@ == codec_text(*err, io);
                assert(s@ == daemon_text(*self, io));
                s
            },
            DaemonError::Index(err) => {
                let inner = err.message();
                let s = String::from_str("index error: ").concat(inner.as_str());
                let ghost io = choose|io: Seq<char>| inner@ == index_text(*err, io);
                assert(s@ == daemon_text(*self, io));
                s
            },
            DaemonError::Unsupported(msg) => {
                let s = String::from_str(msg);
                assert(s@ == daemon_text(*self, Seq::empty()));
                s
            },
        }
    }
}

/// The response that reports a failed request to the client.
pub fn error_response(err: &DaemonError) -> (r: Response)
    ensures
        exists|io: Seq<char>| r@ == (ResponseModel::Error { message: daemon_text(*err, io) }),
{
    Response::Error { message: err.message() }
}

/// Request dispatcher.
pub trait Handler: Send + Sync + 'static {
    /// Dispatch one request.
    fn handle(&self, request: Request) -> Result<Response, DaemonError>;
}

/// What the daemon does with a request.
#[derive(Debug)]
pub enum Dispatch {
    /// Answer with this response.
    Reply(Response),
    /// Answer with the first `limit` entries of the index, in id order.
    ListEntries(u16),
}

/// The answer to `request` from a daemon of version `daemon_version`, and
/// whether the request asks the daemon to shut down.
///
/// `Hello` is answered with the daemon version and the wire protocol version,
/// `Ping` with `Pong`, `Shutdown` with `Ack` (and only it asks for shutdown),
/// and `ListEntries` with a page of the index.
pub fn dispatch(request: Request, daemon_version: &str) -> (r: (Dispatch, bool))
    ensures
        r.1 == (request@ is Shutdown),
        match request@ {
            RequestModel::Hello { .. } => r.0 matches Dispatch::Reply(resp) && resp@
                == ResponseModel::Hello {
                daemon_version: daemon_version@,
                protocol_version: PROTOCOL_VERSION,
            },
            RequestModel::Ping => r.0 matches Dispatch::Reply(resp) && resp@ == ResponseModel::Pong,
            RequestModel::Shutdown => r.0 matches Dispatch::Reply(resp) && resp@
                == ResponseModel::Ack,
            RequestModel::ListEntries { limit } => r.0 == Dispatch::ListEntries(limit),
        },
{
    match request {
        Request::Hello { client_version: _ } => (
            Dispatch::Reply(
                Response::Hello {
                    daemon_version: daemon_version.to_owned(),
                    protocol_version: PROTOCOL_VERSION,
                },
            ),
            false,
        ),
        Request::Ping => (Dispatch::Reply(Response::Pong), false),
        Request::Shutdown => (Dispatch::Reply(Response::Ack), true),
        Request::ListEntries { limit } => (Dispatch::ListEntries(limit), false),
    }
}

/// The response to a listing: its entries (as wire entries, in the same
/// order) and whether more exist; or the index error that prevented it.
pub fn entries_response(listing: Result<(Vec<Entry>, bool), IndexError>) -> (r: Result<
    Response,
    DaemonError,
>)
    ensures
        match listing {
            Ok((entries, more)) => r matches Ok(resp) && resp@ == ResponseModel::Entries {
                items: models(entries@),
                more,
            },
            Err(e) => r == Err::<Response, DaemonError>(DaemonError::Index(e)),
        },
{
    match listing {
        Ok((entries, more)) => {
            let mut items: Vec<EntryRef> = Vec::new();
            let mut i: usize = 0;
            while i < entries.len()
                invariant
                    i <= entries@.len(),
                    entry_models(items@) == models(entries@).take(i as int),
                decreases entries@.len() - i,
            {
                let ghost before = items@;
                items.push(EntryRef::from(&entries[i]));
                assert(entry_models(items@) =~= entry_models(before).push(entries@[i as int]@));
                assert(models(entries@).take(i as int + 1) =~= models(entries@).take(
                    i as int,
                ).push(entries@[i as int]@));
                i = i + 1;
            }
            assert(models(entries@).take(i as int) =~= models(entries@));
            Ok(Response::Entries { items, more })
        },
        Err(e) => Err(DaemonError::Index(e)),
    }
}

} // verus!

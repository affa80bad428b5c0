//! Wire message definitions for SayRat IPC.
//!
//! `Request::Shutdown` is honored only when it arrives on the local daemon
//! socket that the current user can access. Remote transports, if ever added,
//! must reject it.

use vstd::prelude::*;

verus! {

/// Entry category exposed by the daemon.
#[derive(Debug, Clone, Copy, PartialEq, Eq, Structural)]
pub enum EntryKind {
    /// A desktop application entry discovered from application directories.
    Application,
    /// A filesystem result. Populated in a later phase.
    File,
    /// A plugin-provided command. Populated in a later phase.
    PluginCommand,
}

impl View for EntryKind {
    type V = EntryKind;

    open spec fn view(&self) -> EntryKind {
        *self
    }
}

/// The mathematical content of an entry: its identifier, kind and texts.
pub struct EntryModel {
    pub id: u64,
    pub kind: EntryKind,
    pub name: Seq<char>,
    pub subtitle: Option<Seq<char>>,
    pub command: Option<Seq<char>>,
    pub icon: Option<Seq<char>>,
}

/// The characters of an optional text.
pub open spec fn opt_text(s: Option<String>) -> Option<Seq<char>> {
    match s {
        Some(t) => Some(t@),
        None => None,
    }
}

/// Owned entry persisted by the daemon index.
#[derive(Debug, PartialEq, Eq)]
pub struct Entry {
    /// Stable daemon-local identifier.
    pub id: u64,
    /// Entry kind.
    pub kind: EntryKind,
    /// Display name.
    pub name: String,
    /// Secondary text.
    pub subtitle: Option<String>,
    /// Command line for application entries.
    pub command: Option<String>,
    /// Icon name or path.
    pub icon: Option<String>,
}

impl View for Entry {
    type V = EntryModel;

    open spec fn view(&self) -> EntryModel {
        EntryModel {
            id: self.id,
            kind: self.kind,
            name: self.name@,
            subtitle: opt_text(self.subtitle),
            command: opt_text(self.command),
            icon: opt_text(self.icon),
        }
    }
}

/// Copies an optional text.
pub fn copy_opt_text(s: &Option<String>) -> (r: Option<String>)
    ensures
        opt_text(r) == opt_text(*s),
{
    match s {
        Some(t) => Some(t.clone()),
        None => None,
    }
}

impl Clone for Entry {
    fn clone(&self) -> (r: Self)
        ensures
            r@ == self@,
    {
        Entry {
            id: self.id,
            kind: self.kind,
            name: self.name.clone(),
            subtitle: copy_opt_text(&self.subtitle),
            command: copy_opt_text(&self.command),
            icon: copy_opt_text(&self.icon),
        }
    }
}


/// Entry carried by list/search responses.
///
/// It holds the same fields as [`Entry`]; decoding always produces owned text.
#[derive(Debug, PartialEq, Eq)]
pub struct EntryRef {
    /// Stable daemon-local identifier.
    pub id: u64,
    /// Entry kind.
    pub kind: EntryKind,
    /// Display name.
    pub name: String,
    /// Secondary text.
    pub subtitle: Option<String>,
    /// Command line for application entries (the desktop file's `Exec` key).
    pub command: Option<String>,
    /// Icon name or path.
    pub icon: Option<String>,
}

impl View for EntryRef {
    type V = EntryModel;

    open spec fn view(&self) -> EntryModel {
        EntryModel {
            id: self.id,
            kind: self.kind,
            name: self.name@,
            subtitle: opt_text(self.subtitle),
            command: opt_text(self.command),
            icon: opt_text(self.icon),
        }
    }
}

impl Clone for EntryRef {
    fn clone(&self) -> (r: Self)
        ensures
            r@ == self@,
    {
        EntryRef {
            id: self.id,
            kind: self.kind,
            name: self.name.clone(),
            subtitle: copy_opt_text(&self.subtitle),
            command: copy_opt_text(&self.command),
            icon: copy_opt_text(&self.icon),
        }
    }
}

impl<'a> From<&'a Entry> for EntryRef {
    fn from(entry: &'a Entry) -> (r: Self)
        ensures
            r@ == entry@,
    {
        EntryRef {
            id: entry.id,
            kind: entry.kind,
            name: entry.name.clone(),
            subtitle: copy_opt_text(&entry.subtitle),
            command: copy_opt_text(&entry.command),
            icon: copy_opt_text(&entry.icon),
        }
    }
}

// The contract of the conversion stands on `from` above (the result's model
// is the entry's model); strings have no spec-level constructor, so the
// generic `From` specification is not used for it.
impl<'a> vstd::std_specs::convert::FromSpecImpl<&'a Entry> for EntryRef {
    open spec fn obeys_from_spec() -> bool {
        false
    }

    open spec fn from_spec(entry: &'a Entry) -> Self {
        arbitrary()
    }
}

/// The mathematical content of a request.
pub enum RequestModel {
    Hello { client_version: Seq<char> },
    Ping,
    Shutdown,
    ListEntries { limit: u16 },
}

/// Requests accepted by the daemon.
#[derive(Debug, Clone, PartialEq, Eq)]
pub enum Request {
    /// Version negotiation.
    Hello {
        /// Client package/protocol version string.
        client_version: String,
    },
    /// Liveness probe.
    Ping,
    /// Graceful daemon shutdown. Only honored on the local socket.
    Shutdown,
    /// List indexed entries, capped by `limit`.
    ListEntries {
        /// Maximum number of entries to return.
        limit: u16,
    },
}

impl View for Request {
    type V = RequestModel;

    open spec fn view(&self) -> RequestModel {
        match self {
            Request::Hello { client_version } => RequestModel::Hello {
                client_version: client_version@,
            },
            Request::Ping => RequestModel::Ping,
            Request::Shutdown => RequestModel::Shutdown,
            Request::ListEntries { limit } => RequestModel::ListEntries { limit: *limit },
        }
    }
}

/// The mathematical content of a response.
pub enum ResponseModel {
    Hello { daemon_version: Seq<char>, protocol_version: u16 },
    Pong,
    Ack,
    Entries { items: Seq<EntryModel>, more: bool },
    Error { message: Seq<char> },
}

/// The models of a sequence of entries.
pub open spec fn entry_models(items: Seq<EntryRef>) -> Seq<EntryModel> {
    items.map_values(|e: EntryRef| e@)
}

/// Responses emitted by the daemon.
#[derive(Debug, Clone, PartialEq, Eq)]
pub enum Response {
    /// Version negotiation response.
    Hello {
        /// Daemon package version string.
        daemon_version: String,
        /// Wire protocol version.
        protocol_version: u16,
    },
    /// Liveness response.
    Pong,
    /// Generic acknowledgement.
    Ack,
    /// Entry listing response.
    Entries {
        /// Returned items.
        items: Vec<EntryRef>,
        /// True when more entries exist after this page.
        more: bool,
    },
    /// Request failed.
    Error {
        /// Human-readable error.
        message: String,
    },
}

impl View for Response {
    type V = ResponseModel;

    open spec fn view(&self) -> ResponseModel {
        match self {
            Response::Hello { daemon_version, protocol_version } => ResponseModel::Hello {
                daemon_version: daemon_version@,
                protocol_version: *protocol_version,
            },
            Response::Pong => ResponseModel::Pong,
            Response::Ack => ResponseModel::Ack,
            Response::Entries { items, more } => ResponseModel::Entries {
                items: entry_models(items@),
                more: *more,
            },
            Response::Error { message } => ResponseModel::Error { message: message@ },
        }
    }
}

} // verus!

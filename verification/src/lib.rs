//! SayRat's shared library: the IPC vocabulary between the daemon and its
//! overlay client, the length-prefixed wire codec that carries it, the
//! application index (desktop-file reading, the store image, listing and
//! index operations) and the daemon's request dispatch.
//!
//! `PROTOCOL_VERSION` must be incremented for any wire-incompatible change.
//!
//! - [`messages`]: requests, responses and entries, with their models.
//! - [`wire`]: the wire format stated mathematically, and the lemmas that
//!   reading what was written gives it back.
//! - [`codec`]: encoders, decoders and framing, proved against [`wire`].
//! - [`desktop`]: the `.desktop` reader and the stable entry id.
//! - [`table`]: entries keyed by id, read in id order.
//! - [`indexer`]: the store image, listing and index operations.
//! - [`daemon`]: what each request is answered with.
//! - [`order`], [`trusted`]: facts about `BTreeMap` key order, and the
//!   standard-library calls taken on trust.

use vstd::prelude::*;

pub mod codec;
pub mod daemon;
pub mod desktop;
pub mod indexer;
pub mod messages;
pub mod order;
pub mod table;
pub mod trusted;
pub mod wire;

verus! {

/// Current SayRat IPC protocol version.
pub const PROTOCOL_VERSION: u16 = 1;

} // verus!

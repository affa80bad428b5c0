//! The SayRat wire format, stated mathematically.
//!
//! Integers are little-endian. A text is a little-endian `u32` byte length
//! followed by its UTF-8 bytes. An optional text is a tag byte (0 for none,
//! 1 for some) followed by the text. Every message is a tag byte followed by
//! its fields in declaration order.
//!
//! Encoding is described by [`WireOutput`]: the bytes an encoder appends and,
//! when a length does not fit the wire's `u32`, the length that overflowed (the
//! encoder stops there, after appending the bytes before the failing field).
//! Decoding is described by parsers from a byte sequence and a position to the
//! decoded value and the position after it, or the error a decoder reports.

use vstd::prelude::*;
use vstd::utf8::{encode_utf8, decode_utf8, valid_utf8, encode_utf8_valid_utf8, encode_utf8_decode_utf8};
use crate::codec::CodecError;
use crate::messages::{EntryKind, EntryModel, RequestModel, ResponseModel};

verus! {

/// Little-endian bytes of a `u16`.
pub open spec fn u16_le(v: u16) -> Seq<u8> {
    seq![v as u8, (v >> 8u16) as u8]
}

/// Little-endian bytes of a `u32`.
pub open spec fn u32_le(v: u32) -> Seq<u8> {
    seq![v as u8, (v >> 8u32) as u8, (v >> 16u32) as u8, (v >> 24u32) as u8]
}

/// Little-endian bytes of a `u64`.
pub open spec fn u64_le(v: u64) -> Seq<u8> {
    seq![
        v as u8,
        (v >> 8u64) as u8,
        (v >> 16u64) as u8,
        (v >> 24u64) as u8,
        (v >> 32u64) as u8,
        (v >> 40u64) as u8,
        (v >> 48u64) as u8,
        (v >> 56u64) as u8,
    ]
}

/// The `u16` whose little-endian bytes are `b[0..2]`.
pub open spec fn u16_of(b: Seq<u8>) -> u16 {
    (b[0] as u16) | ((b[1] as u16) << 8u16)
}

/// The `u32` whose little-endian bytes are `b[0..4]`.
pub open spec fn u32_of(b: Seq<u8>) -> u32 {
    (b[0] as u32) | ((b[1] as u32) << 8u32) | ((b[2] as u32) << 16u32) | ((b[3] as u32)
        << 24u32)
}

/// The `u64` whose little-endian bytes are `b[0..8]`.
pub open spec fn u64_of(b: Seq<u8>) -> u64 {
    (b[0] as u64) | ((b[1] as u64) << 8u64) | ((b[2] as u64) << 16u64) | ((b[3] as u64)
        << 24u64) | ((b[4] as u64) << 32u64) | ((b[5] as u64) << 40u64) | ((b[6] as u64)
        << 48u64) | ((b[7] as u64) << 56u64)
}

pub proof fn lemma_u16_round_trip(v: u16)
    ensures
        u16_of(u16_le(v)) == v,
{
    let b = u16_le(v);
    assert(((v as u8) as u16) | ((((v >> 8u16) as u8) as u16) << 8u16) == v) by (bit_vector);
}

pub proof fn lemma_u32_round_trip(v: u32)
    ensures
        u32_of(u32_le(v)) == v,
{
    let b = u32_le(v);
    assert(((v as u8) as u32) | ((((v >> 8u32) as u8) as u32) << 8u32) | ((((v >> 16u32) as u8)
        as u32) << 16u32) | ((((v >> 24u32) as u8) as u32) << 24u32) == v) by (bit_vector);
}

pub proof fn lemma_u64_round_trip(v: u64)
    ensures
        u64_of(u64_le(v)) == v,
{
    let b = u64_le(v);
    assert(((v as u8) as u64) | ((((v >> 8u64) as u8) as u64) << 8u64) | ((((v >> 16u64) as u8)
        as u64) << 16u64) | ((((v >> 24u64) as u8) as u64) << 24u64) | ((((v >> 32u64) as u8)
        as u64) << 32u64) | ((((v >> 40u64) as u8) as u64) << 40u64) | ((((v >> 48u64) as u8)
        as u64) << 48u64) | ((((v >> 56u64) as u8) as u64) << 56u64) == v) by (bit_vector);
}


/// A decoder's outcome: the value and the position after it, or the error.
pub type Parsed<T> = Result<(T, int), CodecError>;

/// Where a read of `n` bytes at `pos` ends, or why it cannot be made.
pub open spec fn take_at(s: Seq<u8>, pos: int, n: int) -> Result<int, CodecError> {
    if pos + n > usize::MAX {
        Err(CodecError::InvalidData("cursor overflow"))
    } else if pos + n > s.len() {
        Err(CodecError::InvalidData("truncated frame"))
    } else {
        Ok(pos + n)
    }
}

/// One byte at `pos`.
pub open spec fn byte_at(s: Seq<u8>, pos: int) -> Parsed<u8> {
    match take_at(s, pos, 1) {
        Ok(end) => Ok((s[pos], end)),
        Err(e) => Err(e),
    }
}

/// A little-endian `u16` at `pos`.
pub open spec fn u16_at(s: Seq<u8>, pos: int) -> Parsed<u16> {
    match take_at(s, pos, 2) {
        Ok(end) => Ok((u16_of(s.subrange(pos, end)), end)),
        Err(e) => Err(e),
    }
}

/// A little-endian `u32` at `pos`.
pub open spec fn u32_at(s: Seq<u8>, pos: int) -> Parsed<u32> {
    match take_at(s, pos, 4) {
        Ok(end) => Ok((u32_of(s.subrange(pos, end)), end)),
        Err(e) => Err(e),
    }
}

/// A little-endian `u64` at `pos`.
pub open spec fn u64_at(s: Seq<u8>, pos: int) -> Parsed<u64> {
    match take_at(s, pos, 8) {
        Ok(end) => Ok((u64_of(s.subrange(pos, end)), end)),
        Err(e) => Err(e),
    }
}

/// A length-prefixed UTF-8 text at `pos`.
pub open spec fn text_at(s: Seq<u8>, pos: int) -> Parsed<Seq<char>> {
    match u32_at(s, pos) {
        Err(e) => Err(e),
        Ok((n, p)) => match take_at(s, p, n as int) {
            Err(e) => Err(e),
            Ok(end) => if valid_utf8(s.subrange(p, end)) {
                Ok((decode_utf8(s.subrange(p, end)), end))
            } else {
                Err(CodecError::InvalidData("invalid utf-8"))
            },
        },
    }
}


/// What an encoder appends, and the length that did not fit the wire's `u32`
/// when it failed (it stops there).
pub struct WireOutput {
    pub bytes: Seq<u8>,
    pub overflow: Option<usize>,
}

impl WireOutput {
    /// Appends `bytes` and succeeds.
    pub open spec fn ok(bytes: Seq<u8>) -> WireOutput {
        WireOutput { bytes, overflow: None }
    }

    /// This output followed by `next`, which runs only if this one succeeded.
    pub open spec fn and_then(self, next: WireOutput) -> WireOutput {
        if self.overflow is Some {
            self
        } else {
            WireOutput { bytes: self.bytes + next.bytes, overflow: next.overflow }
        }
    }

    /// What the encoder returns.
    pub open spec fn outcome(self) -> Result<(), CodecError> {
        match self.overflow {
            Some(len) => Err(CodecError::FrameTooLarge { len }),
            None => Ok(()),
        }
    }
}

/// A text: its UTF-8 byte length as a `u32`, then the bytes. A text whose
/// length does not fit a `u32` fails with that length and appends nothing.
pub open spec fn text_wire(t: Seq<char>) -> WireOutput {
    let b = encode_utf8(t);
    if b.len() > u32::MAX {
        WireOutput { bytes: Seq::empty(), overflow: Some(b.len() as usize) }
    } else {
        WireOutput::ok(u32_le(b.len() as u32) + b)
    }
}

/// An optional text: tag 0, or tag 1 and the text.
pub open spec fn opt_text_wire(t: Option<Seq<char>>) -> WireOutput {
    match t {
        None => WireOutput::ok(seq![0u8]),
        Some(t) => WireOutput::ok(seq![1u8]).and_then(text_wire(t)),
    }
}


/// The byte that stands for an entry kind.
pub open spec fn kind_byte(k: EntryKind) -> u8 {
    match k {
        EntryKind::Application => 0,
        EntryKind::File => 1,
        EntryKind::PluginCommand => 2,
    }
}

/// The byte that stands for a flag.
pub open spec fn bool_byte(b: bool) -> u8 {
    if b { 1 } else { 0 }
}

/// An entry: id, kind byte, name, then subtitle, command and icon as optional texts.
pub open spec fn entry_wire(e: EntryModel) -> WireOutput {
    WireOutput::ok(u64_le(e.id).push(kind_byte(e.kind))).and_then(text_wire(e.name)).and_then(
        opt_text_wire(e.subtitle),
    ).and_then(opt_text_wire(e.command)).and_then(opt_text_wire(e.icon))
}

/// Entries one after another, in order.
pub open spec fn entries_wire(items: Seq<EntryModel>) -> WireOutput
    decreases items.len(),
{
    if items.len() == 0 {
        WireOutput::ok(Seq::empty())
    } else {
        entries_wire(items.drop_last()).and_then(entry_wire(items.last()))
    }
}

/// A request: tag 0 and the client version, 1, 2, or tag 3 and the limit.
pub open spec fn request_wire(r: RequestModel) -> WireOutput {
    match r {
        RequestModel::Hello { client_version } => WireOutput::ok(seq![0u8]).and_then(
            text_wire(client_version),
        ),
        RequestModel::Ping => WireOutput::ok(seq![1u8]),
        RequestModel::Shutdown => WireOutput::ok(seq![2u8]),
        RequestModel::ListEntries { limit } => WireOutput::ok(seq![3u8] + u16_le(limit)),
    }
}

/// A response: tag 0, version text and protocol version; 1; 2; tag 3, the
/// `more` flag, the item count as a `u32` and the items; or tag 4 and the
/// message. A listing whose count does not fit a `u32` fails with that count.
pub open spec fn response_wire(r: ResponseModel) -> WireOutput {
    match r {
        ResponseModel::Hello { daemon_version, protocol_version } => WireOutput::ok(
            seq![0u8],
        ).and_then(text_wire(daemon_version)).and_then(WireOutput::ok(u16_le(protocol_version))),
        ResponseModel::Pong => WireOutput::ok(seq![1u8]),
        ResponseModel::Ack => WireOutput::ok(seq![2u8]),
        ResponseModel::Entries { items, more } => if items.len() > u32::MAX {
            WireOutput { bytes: seq![3u8, bool_byte(more)], overflow: Some(items.len() as usize) }
        } else {
            WireOutput::ok(seq![3u8, bool_byte(more)] + u32_le(items.len() as u32)).and_then(
                entries_wire(items),
            )
        },
        ResponseModel::Error { message } => WireOutput::ok(seq![4u8]).and_then(
            text_wire(message),
        ),
    }
}

/// An entry kind at `pos`.
pub open spec fn kind_at(s: Seq<u8>, pos: int) -> Parsed<EntryKind> {
    match byte_at(s, pos) {
        Err(e) => Err(e),
        Ok((b, p)) => if b == 0 {
            Ok((EntryKind::Application, p))
        } else if b == 1 {
            Ok((EntryKind::File, p))
        } else if b == 2 {
            Ok((EntryKind::PluginCommand, p))
        } else {
            Err(CodecError::InvalidData("invalid entry kind"))
        },
    }
}

/// An optional text at `pos`.
pub open spec fn opt_text_at(s: Seq<u8>, pos: int) -> Parsed<Option<Seq<char>>> {
    match byte_at(s, pos) {
        Err(e) => Err(e),
        Ok((b, p)) => if b == 0 {
            Ok((None, p))
        } else if b == 1 {
            match text_at(s, p) {
                Err(e) => Err(e),
                Ok((t, q)) => Ok((Some(t), q)),
            }
        } else {
            Err(CodecError::InvalidData("invalid option tag"))
        },
    }
}

/// An entry at `pos`.
#[verifier::opaque]
pub open spec fn entry_at(s: Seq<u8>, pos: int) -> Parsed<EntryModel> {
    match u64_at(s, pos) {
        Err(e) => Err(e),
        Ok((id, p1)) => match kind_at(s, p1) {
            Err(e) => Err(e),
            Ok((kind, p2)) => match text_at(s, p2) {
                Err(e) => Err(e),
                Ok((name, p3)) => match opt_text_at(s, p3) {
                    Err(e) => Err(e),
                    Ok((subtitle, p4)) => match opt_text_at(s, p4) {
                        Err(e) => Err(e),
                        Ok((command, p5)) => match opt_text_at(s, p5) {
                            Err(e) => Err(e),
                            Ok((icon, p6)) => Ok(
                                (EntryModel { id, kind, name, subtitle, command, icon }, p6),
                            ),
                        },
                    },
                },
            },
        },
    }
}

/// `n` entries one after another at `pos`.
pub open spec fn entries_at(s: Seq<u8>, pos: int, n: nat) -> Parsed<Seq<EntryModel>>
    decreases n,
{
    if n == 0 {
        Ok((Seq::empty(), pos))
    } else {
        match entries_at(s, pos, (n - 1) as nat) {
            Err(e) => Err(e),
            Ok((items, p)) => match entry_at(s, p) {
                Err(e) => Err(e),
                Ok((item, q)) => Ok((items.push(item), q)),
            },
        }
    }
}

/// A request at `pos`.
pub open spec fn request_at(s: Seq<u8>, pos: int) -> Parsed<RequestModel> {
    match byte_at(s, pos) {
        Err(e) => Err(e),
        Ok((tag, p)) => if tag == 0 {
            match text_at(s, p) {
                Err(e) => Err(e),
                Ok((v, q)) => Ok((RequestModel::Hello { client_version: v }, q)),
            }
        } else if tag == 1 {
            Ok((RequestModel::Ping, p))
        } else if tag == 2 {
            Ok((RequestModel::Shutdown, p))
        } else if tag == 3 {
            match u16_at(s, p) {
                Err(e) => Err(e),
                Ok((limit, q)) => Ok((RequestModel::ListEntries { limit }, q)),
            }
        } else {
            Err(CodecError::InvalidData("invalid request tag"))
        },
    }
}

/// A response at `pos`.
pub open spec fn response_at(s: Seq<u8>, pos: int) -> Parsed<ResponseModel> {
    match byte_at(s, pos) {
        Err(e) => Err(e),
        Ok((tag, p)) => if tag == 0 {
            match text_at(s, p) {
                Err(e) => Err(e),
                Ok((v, q)) => match u16_at(s, q) {
                    Err(e) => Err(e),
                    Ok((pv, r)) => Ok(
                        (ResponseModel::Hello { daemon_version: v, protocol_version: pv }, r),
                    ),
                },
            }
        } else if tag == 1 {
            Ok((ResponseModel::Pong, p))
        } else if tag == 2 {
            Ok((ResponseModel::Ack, p))
        } else if tag == 3 {
            match byte_at(s, p) {
                Err(e) => Err(e),
                Ok((flag, q)) => if flag > 1 {
                    Err(CodecError::InvalidData("invalid bool"))
                } else {
                    match u32_at(s, q) {
                        Err(e) => Err(e),
                        Ok((n, r)) => match entries_at(s, r, n as nat) {
                            Err(e) => Err(e),
                            Ok((items, end)) => Ok(
                                (ResponseModel::Entries { items, more: flag == 1 }, end),
                            ),
                        },
                    }
                },
            }
        } else if tag == 4 {
            match text_at(s, p) {
                Err(e) => Err(e),
                Ok((m, q)) => Ok((ResponseModel::Error { message: m }, q)),
            }
        } else {
            Err(CodecError::InvalidData("invalid response tag"))
        },
    }
}

/// Once `n` entries fail to decode, so do more.
pub proof fn lemma_entries_error_persists(s: Seq<u8>, pos: int, n: nat, m: nat)
    requires
        n <= m,
        entries_at(s, pos, n) is Err,
    ensures
        entries_at(s, pos, m) == entries_at(s, pos, n),
    decreases m,
{
    if n < m {
        lemma_entries_error_persists(s, pos, n, (m - 1) as nat);
    }
}


/// `b` stands in `s` from position `pos` on.
pub open spec fn holds_at(s: Seq<u8>, pos: int, b: Seq<u8>) -> bool {
    0 <= pos && pos + b.len() <= s.len() && s.subrange(pos, pos + b.len()) == b
}

pub proof fn lemma_holds_split(s: Seq<u8>, pos: int, a: Seq<u8>, b: Seq<u8>)
    requires
        holds_at(s, pos, a + b),
    ensures
        holds_at(s, pos, a),
        holds_at(s, pos + a.len(), b),
{
    assert(s.subrange(pos, pos + a.len()) =~= (a + b).subrange(0, a.len() as int));
    assert((a + b).subrange(0, a.len() as int) =~= a);
    assert(s.subrange(pos + a.len(), pos + a.len() + b.len()) =~= (a + b).subrange(
        a.len() as int,
        (a + b).len() as int,
    ));
    assert((a + b).subrange(a.len() as int, (a + b).len() as int) =~= b);
}

pub proof fn lemma_byte_read(s: Seq<u8>, pos: int, v: u8)
    requires
        holds_at(s, pos, seq![v]),
        s.len() <= usize::MAX,
    ensures
        byte_at(s, pos) == Ok::<(u8, int), CodecError>((v, pos + 1)),
{
    assert(s.subrange(pos, pos + 1)[0] == s[pos]);
}

pub proof fn lemma_u16_read(s: Seq<u8>, pos: int, v: u16)
    requires
        holds_at(s, pos, u16_le(v)),
        s.len() <= usize::MAX,
    ensures
        u16_at(s, pos) == Ok::<(u16, int), CodecError>((v, pos + 2)),
{
    lemma_u16_round_trip(v);
}

pub proof fn lemma_u32_read(s: Seq<u8>, pos: int, v: u32)
    requires
        holds_at(s, pos, u32_le(v)),
        s.len() <= usize::MAX,
    ensures
        u32_at(s, pos) == Ok::<(u32, int), CodecError>((v, pos + 4)),
{
    lemma_u32_round_trip(v);
}

pub proof fn lemma_u64_read(s: Seq<u8>, pos: int, v: u64)
    requires
        holds_at(s, pos, u64_le(v)),
        s.len() <= usize::MAX,
    ensures
        u64_at(s, pos) == Ok::<(u64, int), CodecError>((v, pos + 8)),
{
    lemma_u64_round_trip(v);
}

pub proof fn lemma_text_read(s: Seq<u8>, pos: int, t: Seq<char>)
    requires
        text_wire(t).overflow is None,
        holds_at(s, pos, text_wire(t).bytes),
        s.len() <= usize::MAX,
    ensures
        text_at(s, pos) == Ok::<(Seq<char>, int), CodecError>(
            (t, pos + text_wire(t).bytes.len()),
        ),
{
    let b = encode_utf8(t);
    lemma_holds_split(s, pos, u32_le(b.len() as u32), b);
    lemma_u32_read(s, pos, b.len() as u32);
    encode_utf8_valid_utf8(t);
    encode_utf8_decode_utf8(t);
}

pub proof fn lemma_opt_text_read(s: Seq<u8>, pos: int, t: Option<Seq<char>>)
    requires
        opt_text_wire(t).overflow is None,
        holds_at(s, pos, opt_text_wire(t).bytes),
        s.len() <= usize::MAX,
    ensures
        opt_text_at(s, pos) == Ok::<(Option<Seq<char>>, int), CodecError>(
            (t, pos + opt_text_wire(t).bytes.len()),
        ),
{
    match t {
        None => {
            lemma_byte_read(s, pos, 0);
        },
        Some(x) => {
            lemma_holds_split(s, pos, seq![1u8], text_wire(x).bytes);
            lemma_byte_read(s, pos, 1);
            lemma_text_read(s, pos + 1, x);
        },
    }
}

pub proof fn lemma_kind_read(s: Seq<u8>, pos: int, k: EntryKind)
    requires
        holds_at(s, pos, seq![kind_byte(k)]),
        s.len() <= usize::MAX,
    ensures
        kind_at(s, pos) == Ok::<(EntryKind, int), CodecError>((k, pos + 1)),
{
    lemma_byte_read(s, pos, kind_byte(k));
}

pub proof fn lemma_entry_read(s: Seq<u8>, pos: int, e: EntryModel)
    requires
        entry_wire(e).overflow is None,
        holds_at(s, pos, entry_wire(e).bytes),
        s.len() <= usize::MAX,
    ensures
        entry_at(s, pos) == Ok::<(EntryModel, int), CodecError>(
            (e, pos + entry_wire(e).bytes.len()),
        ),
{
    reveal(entry_at);
    let h = u64_le(e.id).push(kind_byte(e.kind));
    let n = text_wire(e.name).bytes;
    let a = opt_text_wire(e.subtitle).bytes;
    let c = opt_text_wire(e.command).bytes;
    let i = opt_text_wire(e.icon).bytes;
    assert(entry_wire(e).bytes == h + n + a + c + i);
    assert(h =~= u64_le(e.id) + seq![kind_byte(e.kind)]);
    lemma_holds_split(s, pos, h + n + a + c, i);
    lemma_holds_split(s, pos, h + n + a, c);
    lemma_holds_split(s, pos, h + n, a);
    lemma_holds_split(s, pos, h, n);
    lemma_holds_split(s, pos, u64_le(e.id), seq![kind_byte(e.kind)]);
    lemma_u64_read(s, pos, e.id);
    lemma_kind_read(s, pos + 8, e.kind);
    lemma_text_read(s, pos + 9, e.name);
    lemma_opt_text_read(s, pos + 9 + n.len(), e.subtitle);
    lemma_opt_text_read(s, pos + 9 + n.len() + a.len(), e.command);
    lemma_opt_text_read(s, pos + 9 + n.len() + a.len() + c.len(), e.icon);
}

pub proof fn lemma_entries_read(s: Seq<u8>, pos: int, items: Seq<EntryModel>)
    requires
        entries_wire(items).overflow is None,
        holds_at(s, pos, entries_wire(items).bytes),
        s.len() <= usize::MAX,
    ensures
        entries_at(s, pos, items.len()) == Ok::<(Seq<EntryModel>, int), CodecError>(
            (items, pos + entries_wire(items).bytes.len()),
        ),
    decreases items.len(),
{
    if items.len() > 0 {
        let front = items.drop_last();
        lemma_holds_split(s, pos, entries_wire(front).bytes, entry_wire(items.last()).bytes);
        lemma_entries_read(s, pos, front);
        lemma_entry_read(s, pos + entries_wire(front).bytes.len(), items.last());
        assert(front.push(items.last()) =~= items);
    } else {
        assert(items =~= Seq::<EntryModel>::empty());
    }
}

pub proof fn lemma_request_read(s: Seq<u8>, pos: int, r: RequestModel)
    requires
        request_wire(r).overflow is None,
        holds_at(s, pos, request_wire(r).bytes),
        s.len() <= usize::MAX,
    ensures
        request_at(s, pos) == Ok::<(RequestModel, int), CodecError>(
            (r, pos + request_wire(r).bytes.len()),
        ),
{
    match r {
        RequestModel::Hello { client_version } => {
            lemma_holds_split(s, pos, seq![0u8], text_wire(client_version).bytes);
            lemma_byte_read(s, pos, 0);
            lemma_text_read(s, pos + 1, client_version);
        },
        RequestModel::Ping => {
            lemma_byte_read(s, pos, 1);
        },
        RequestModel::Shutdown => {
            lemma_byte_read(s, pos, 2);
        },
        RequestModel::ListEntries { limit } => {
            lemma_holds_split(s, pos, seq![3u8], u16_le(limit));
            lemma_byte_read(s, pos, 3);
            lemma_u16_read(s, pos + 1, limit);
        },
    }
}

proof fn lemma_hello_response_read(s: Seq<u8>, pos: int, v: Seq<char>, pv: u16)
    requires
        text_wire(v).overflow is None,
        holds_at(s, pos, seq![0u8] + text_wire(v).bytes + u16_le(pv)),
        s.len() <= usize::MAX,
    ensures
        response_at(s, pos) == Ok::<(ResponseModel, int), CodecError>(
            (
                ResponseModel::Hello { daemon_version: v, protocol_version: pv },
                pos + 3 + text_wire(v).bytes.len(),
            ),
        ),
{
    let t = text_wire(v).bytes;
    lemma_holds_split(s, pos, seq![0u8] + t, u16_le(pv));
    lemma_holds_split(s, pos, seq![0u8], t);
    lemma_byte_read(s, pos, 0);
    lemma_text_read(s, pos + 1, v);
    lemma_u16_read(s, pos + 1 + t.len(), pv);
}

proof fn lemma_entries_response_read(s: Seq<u8>, pos: int, items: Seq<EntryModel>, more: bool)
    requires
        items.len() <= u32::MAX,
        entries_wire(items).overflow is None,
        holds_at(
            s,
            pos,
            seq![3u8, bool_byte(more)] + u32_le(items.len() as u32) + entries_wire(items).bytes,
        ),
        s.len() <= usize::MAX,
    ensures
        response_at(s, pos) == Ok::<(ResponseModel, int), CodecError>(
            (
                ResponseModel::Entries { items, more },
                pos + 6 + entries_wire(items).bytes.len(),
            ),
        ),
{
    let n = items.len() as u32;
    let e = entries_wire(items).bytes;
    lemma_holds_split(s, pos, seq![3u8, bool_byte(more)] + u32_le(n), e);
    lemma_holds_split(s, pos, seq![3u8, bool_byte(more)], u32_le(n));
    assert(s.subrange(pos, pos + 2)[0] == s[pos]);
    assert(s.subrange(pos, pos + 2)[1] == s[pos + 1]);
    assert(s.subrange(pos, pos + 1) =~= seq![3u8]);
    assert(s.subrange(pos + 1, pos + 2) =~= seq![bool_byte(more)]);
    lemma_byte_read(s, pos, 3);
    lemma_byte_read(s, pos + 1, bool_byte(more));
    lemma_u32_read(s, pos + 2, n);
    lemma_entries_read(s, pos + 6, items);
}

#[verifier::rlimit(40)]
pub proof fn lemma_response_read(s: Seq<u8>, pos: int, r: ResponseModel)
    requires
        response_wire(r).overflow is None,
        holds_at(s, pos, response_wire(r).bytes),
        s.len() <= usize::MAX,
    ensures
        response_at(s, pos) == Ok::<(ResponseModel, int), CodecError>(
            (r, pos + response_wire(r).bytes.len()),
        ),
{
    match r {
        ResponseModel::Hello { daemon_version, protocol_version } => {
            lemma_hello_response_read(s, pos, daemon_version, protocol_version);
        },
        ResponseModel::Pong => {
            lemma_byte_read(s, pos, 1);
        },
        ResponseModel::Ack => {
            lemma_byte_read(s, pos, 2);
        },
        ResponseModel::Entries { items, more } => {
            lemma_entries_response_read(s, pos, items, more);
        },
        ResponseModel::Error { message } => {
            lemma_holds_split(s, pos, seq![4u8], text_wire(message).bytes);
            lemma_byte_read(s, pos, 4);
            lemma_text_read(s, pos + 1, message);
        },
    }
}

} // verus!

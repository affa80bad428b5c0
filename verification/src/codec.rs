//! Length-prefixed message codec.
//!
//! Frames use a little-endian `u32` byte length followed by a compact binary
//! payload laid out as [`crate::wire`] states.

use vstd::prelude::*;
use vstd::slice::slice_subrange;
use vstd::utf8::{decode_utf8, encode_utf8_decode_utf8};
use vstd::string::StringExecFns;
use crate::trusted::{utf8_str, unexpected_eof, io_error_text};
use vstd::string::StringSliceAdditionalSpecFns;
use vstd::utf8::encode_utf8;
use crate::messages::{EntryKind, Entry, EntryRef, Request, Response, entry_models, opt_text};
use crate::messages::{EntryModel, RequestModel, ResponseModel};
use crate::wire::{holds_at, lemma_request_read, lemma_response_read, lemma_entry_read, lemma_opt_text_read, lemma_u32_round_trip, Parsed, kind_byte, bool_byte, entry_wire, entries_wire, request_wire, response_wire, kind_at, opt_text_at, entry_at, entries_at, request_at, response_at, lemma_entries_error_persists, WireOutput, text_wire, opt_text_wire, u16_le, u32_le, u64_le, take_at, byte_at, u16_at, u32_at, u64_at, text_at, u16_of, u32_of, u64_of};

verus! {

/// Maximum accepted frame length: 1 MiB.
pub const MAX_FRAME_BYTES: usize = 1024 * 1024;

/// Codec errors.
#[derive(Debug)]
pub enum CodecError {
    /// Underlying I/O error.
    Io(std::io::Error),
    /// Frame length exceeded [`MAX_FRAME_BYTES`].
    FrameTooLarge {
        /// Actual frame length.
        len: usize,
    },
    /// Invalid or unsupported wire value.
    InvalidData(&'static str),
}

impl From<std::io::Error> for CodecError {
    fn from(value: std::io::Error) -> (r: Self)
        ensures
            r == CodecError::Io(value),
    {
        CodecError::Io(value)
    }
}

impl vstd::std_specs::convert::FromSpecImpl<std::io::Error> for CodecError {
    open spec fn obeys_from_spec() -> bool {
        true
    }

    open spec fn from_spec(value: std::io::Error) -> Self {
        CodecError::Io(value)
    }
}

/// The decimal digits of `n`, without sign or leading zeros.
pub open spec fn decimal(n: nat) -> Seq<char>
    decreases n,
{
    if n < 10 {
        seq![digit_char(n)]
    } else {
        decimal(n / 10).push(digit_char(n % 10))
    }
}

/// The character of a decimal digit.
pub open spec fn digit_char(d: nat) -> char {
    ((0x30 + d) as u32) as char
}

/// The one-character text of a decimal digit.
fn digit_str(d: usize) -> (r: &'static str)
    requires
        d < 10,
    ensures
        r@ == seq![digit_char(d as nat)],
{
    proof {
        reveal_strlit("0");
        reveal_strlit("1");
        reveal_strlit("2");
        reveal_strlit("3");
        reveal_strlit("4");
        reveal_strlit("5");
        reveal_strlit("6");
        reveal_strlit("7");
        reveal_strlit("8");
        reveal_strlit("9");
    }
    match d {
        0 => "0",
        1 => "1",
        2 => "2",
        3 => "3",
        4 => "4",
        5 => "5",
        6 => "6",
        7 => "7",
        8 => "8",
        _ => "9",
    }
}

/// `n` written in decimal, as `format!("{}", n)` writes it.
pub fn decimal_text(n: usize) -> (s: String)
    ensures
        s@ == decimal(n as nat),
    decreases n,
{
    if n < 10 {
        String::from_str(digit_str(n))
    } else {
        let mut s = decimal_text(n / 10);
        s.append(digit_str(n % 10));
        s
    }
}

/// The text of a codec error, given the text `io` of the I/O error it may
/// carry.
pub open spec fn codec_text(e: CodecError, io: Seq<char>) -> Seq<char> {
    match e {
        CodecError::Io(_) => "I/O error: "@ + io,
        CodecError::FrameTooLarge { len } => "frame too large: "@ + decimal(len as nat) + " bytes"@,
        CodecError::InvalidData(msg) => msg@,
    }
}

impl CodecError {
    /// Human-readable description: `I/O error: ...`, `frame too large: N
    /// bytes`, or the invalid-data message.
    pub fn message(&self) -> (s: String)
        ensures
            exists|io: Seq<char>| s@ == codec_text(*self, io),
    {
        match self {
            CodecError::Io(err) => {
                let text = io_error_text(err);
                let s = String::from_str("I/O error: ").concat(text.as_str());
                assert(s@ == codec_text(*self, text@));
                s
            },
            CodecError::FrameTooLarge { len } => {
                let s = String::from_str("frame too large: ").concat(decimal_text(*len).as_str()).concat(" bytes");
                assert(s@ == codec_text(*self, Seq::empty()));
                s
            },
            CodecError::InvalidData(msg) => {
                let s = String::from_str(msg);
                assert(s@ == codec_text(*self, Seq::empty()));
                s
            },
        }
    }
}

/// SayRat wire encoders.
pub trait WireEncode {
    /// What `encode` appends to its output, and whether it fails.
    spec fn wire(&self) -> WireOutput;

    /// Append this value to `out`.
    fn encode(&self, out: &mut Vec<u8>) -> (r: Result<(), CodecError>)
        ensures
            final(out)@ == old(out)@ + self.wire().bytes,
            r == self.wire().outcome(),
    ;
}

/// SayRat wire decoders.
pub trait WireDecode: Sized + View {
    /// What `decode` reads at position `pos` of `s`.
    spec fn parse(s: Seq<u8>, pos: int) -> Parsed<Self::V>;

    /// Decode this value from `input`.
    fn decode(input: &mut Cursor) -> (r: Result<Self, CodecError>)
        ensures
            final(input)@.0 == old(input)@.0,
            match Self::parse(old(input)@.0, old(input)@.1 as int) {
                Ok((v, end)) => r matches Ok(x) && x@ == v && final(input)@.1 == end,
                Err(e) => r == Err::<Self, CodecError>(e),
            },
    ;
}

/// The frame that [`write_message`] appends for a message that encodes as
/// `w`: the payload length as a little-endian `u32`, then the payload; or the
/// error when encoding fails or the payload exceeds [`MAX_FRAME_BYTES`].
pub open spec fn frame_of(w: WireOutput) -> Result<Seq<u8>, CodecError> {
    match w.overflow {
        Some(len) => Err(CodecError::FrameTooLarge { len }),
        None => if w.bytes.len() > MAX_FRAME_BYTES {
            Err(CodecError::FrameTooLarge { len: w.bytes.len() as usize })
        } else {
            Ok(u32_le(w.bytes.len() as u32) + w.bytes)
        },
    }
}

/// The payload length that a frame starting with `input` announces.
pub open spec fn announced_len(input: Seq<u8>) -> int {
    u32_of(input) as int
}

/// Read one framed message from the start of `input`.
///
/// Input shorter than the 4-byte header, or than the header and the payload
/// it announces, is an I/O error, as a reader reports the end of its input; an
/// announced length over [`MAX_FRAME_BYTES`] is `FrameTooLarge`; otherwise the
/// payload is decoded from its start, and bytes after the message within the
/// payload, or after the frame, are left unread.
pub fn read_message<T: WireDecode>(input: &[u8]) -> (r: Result<T, CodecError>)
    ensures
        input@.len() < 4 ==> r matches Err(CodecError::Io(_)),
        input@.len() >= 4 && announced_len(input@) > MAX_FRAME_BYTES ==> r == Err::<
            T,
            CodecError,
        >(CodecError::FrameTooLarge { len: announced_len(input@) as usize }),
        input@.len() >= 4 && announced_len(input@) <= MAX_FRAME_BYTES && input@.len() < 4
            + announced_len(input@) ==> r matches Err(CodecError::Io(_)),
        input@.len() >= 4 && announced_len(input@) <= MAX_FRAME_BYTES && input@.len() >= 4
            + announced_len(input@) ==> match T::parse(
            input@.subrange(4, 4 + announced_len(input@)),
            0,
        ) {
            Ok((v, _)) => r matches Ok(x) && x@ == v,
            Err(e) => r == Err::<T, CodecError>(e),
        },
{
    if input.len() < 4 {
        return Err(CodecError::Io(unexpected_eof()));
    }
    let len = frame_length(input)?;
    if input.len() - 4 < len {
        return Err(CodecError::Io(unexpected_eof()));
    }
    decode_payload(slice_subrange(input, 4, 4 + len))
}

/// The payload length that the frame header at the start of `header`
/// announces, or `FrameTooLarge` when it exceeds [`MAX_FRAME_BYTES`].
pub fn frame_length(header: &[u8]) -> (r: Result<usize, CodecError>)
    requires
        header@.len() >= 4,
    ensures
        announced_len(header@) > MAX_FRAME_BYTES ==> r == Err::<usize, CodecError>(
            CodecError::FrameTooLarge { len: announced_len(header@) as usize },
        ),
        announced_len(header@) <= MAX_FRAME_BYTES ==> r == Ok::<usize, CodecError>(
            announced_len(header@) as usize,
        ),
{
    let len = le_u32(header) as usize;
    if len > MAX_FRAME_BYTES {
        return Err(CodecError::FrameTooLarge { len });
    }
    Ok(len)
}

/// Decode one message from the start of a frame's payload; bytes after it
/// are left unread.
pub fn decode_payload<T: WireDecode>(payload: &[u8]) -> (r: Result<T, CodecError>)
    ensures
        match T::parse(payload@, 0) {
            Ok((v, _)) => r matches Ok(x) && x@ == v,
            Err(e) => r == Err::<T, CodecError>(e),
        },
{
    let mut cursor = Cursor::new(payload);
    T::decode(&mut cursor)
}

/// Write one framed message to the end of `out`.
///
/// Nothing is written when the message cannot be encoded or its payload
/// exceeds [`MAX_FRAME_BYTES`].
pub fn write_message<T: WireEncode>(out: &mut Vec<u8>, message: &T) -> (r: Result<
    (),
    CodecError,
>)
    ensures
        match frame_of(message.wire()) {
            Ok(frame) => r is Ok && final(out)@ == old(out)@ + frame,
            Err(e) => r == Err::<(), CodecError>(e) && final(out)@ == old(out)@,
        },
{
    let mut buf: Vec<u8> = Vec::with_capacity(256);
    let encoded = message.encode(&mut buf);
    assert(buf@ =~= message.wire().bytes);
    encoded?;
    if buf.len() > MAX_FRAME_BYTES {
        return Err(CodecError::FrameTooLarge { len: buf.len() });
    }
    put_u32(out, buf.len() as u32);
    out.extend_from_slice(buf.as_slice());
    Ok(())
}

/// The `u32` whose little-endian bytes begin `b`.
pub(crate) fn le_u32(b: &[u8]) -> (v: u32)
    requires
        b@.len() >= 4,
    ensures
        v == u32_of(b@),
{
    (b[0] as u32) | ((b[1] as u32) << 8u32) | ((b[2] as u32) << 16u32) | ((b[3] as u32) << 24u32)
}

/// Borrowing decode cursor over one frame's payload.
pub struct Cursor<'a> {
    bytes: &'a [u8],
    pos: usize,
}

impl<'a> View for Cursor<'a> {
    /// The bytes under the cursor and the position of the next byte to read.
    type V = (Seq<u8>, nat);

    closed spec fn view(&self) -> (Seq<u8>, nat) {
        (self.bytes@, self.pos as nat)
    }
}

impl<'a> Cursor<'a> {
    #[verifier::type_invariant]
    closed spec fn inv(self) -> bool {
        self.pos <= self.bytes@.len()
    }

    pub(crate) fn new(bytes: &'a [u8]) -> (c: Self)
        ensures
            c@ == (bytes@, 0nat),
    {
        Cursor { bytes, pos: 0 }
    }

    pub(crate) fn take(&mut self, len: usize) -> (r: Result<&'a [u8], CodecError>)
        ensures
            final(self)@.0 == old(self)@.0,
            match take_at(old(self)@.0, old(self)@.1 as int, len as int) {
                Ok(end) => r matches Ok(b) && b@ == old(self)@.0.subrange(old(self)@.1 as int, end)
                    && final(self)@.1 == end,
                Err(e) => r == Err::<&'a [u8], CodecError>(e) && final(self)@ == old(self)@,
            },
    {
        proof { use_type_invariant(&*self); }
        let end = match self.pos.checked_add(len) {
            Some(end) => end,
            None => return Err(CodecError::InvalidData("cursor overflow")),
        };
        if end > self.bytes.len() {
            return Err(CodecError::InvalidData("truncated frame"));
        }
        let bytes = slice_subrange(self.bytes, self.pos, end);
        self.pos = end;
        Ok(bytes)
    }

    pub(crate) fn u8(&mut self) -> (r: Result<u8, CodecError>)
        ensures
            final(self)@.0 == old(self)@.0,
            match byte_at(old(self)@.0, old(self)@.1 as int) {
                Ok((v, end)) => r == Ok::<u8, CodecError>(v) && final(self)@.1 == end,
                Err(e) => r == Err::<u8, CodecError>(e),
            },
    {
        let b = self.take(1)?;
        Ok(b[0])
    }

    pub(crate) fn u16(&mut self) -> (r: Result<u16, CodecError>)
        ensures
            final(self)@.0 == old(self)@.0,
            match u16_at(old(self)@.0, old(self)@.1 as int) {
                Ok((v, end)) => r == Ok::<u16, CodecError>(v) && final(self)@.1 == end,
                Err(e) => r == Err::<u16, CodecError>(e),
            },
    {
        let b = self.take(2)?;
        Ok((b[0] as u16) | ((b[1] as u16) << 8u16))
    }

    pub(crate) fn u32(&mut self) -> (r: Result<u32, CodecError>)
        ensures
            final(self)@.0 == old(self)@.0,
            match u32_at(old(self)@.0, old(self)@.1 as int) {
                Ok((v, end)) => r == Ok::<u32, CodecError>(v) && final(self)@.1 == end,
                Err(e) => r == Err::<u32, CodecError>(e),
            },
    {
        let b = self.take(4)?;
        Ok(le_u32(b))
    }

    pub(crate) fn u64(&mut self) -> (r: Result<u64, CodecError>)
        ensures
            final(self)@.0 == old(self)@.0,
            match u64_at(old(self)@.0, old(self)@.1 as int) {
                Ok((v, end)) => r == Ok::<u64, CodecError>(v) && final(self)@.1 == end,
                Err(e) => r == Err::<u64, CodecError>(e),
            },
    {
        let b = self.take(8)?;
        Ok((b[0] as u64) | ((b[1] as u64) << 8u64) | ((b[2] as u64) << 16u64) | ((b[3] as u64)
            << 24u64) | ((b[4] as u64) << 32u64) | ((b[5] as u64) << 40u64) | ((b[6] as u64)
            << 48u64) | ((b[7] as u64) << 56u64))
    }

    pub(crate) fn str(&mut self) -> (r: Result<&'a str, CodecError>)
        ensures
            final(self)@.0 == old(self)@.0,
            match text_at(old(self)@.0, old(self)@.1 as int) {
                Ok((t, end)) => r matches Ok(s) && s@ == t && final(self)@.1 == end,
                Err(e) => r == Err::<&'a str, CodecError>(e),
            },
    {
        let len = self.u32()? as usize;
        let bytes = self.take(len)?;
        match utf8_str(bytes) {
            Some(s) => {
                proof { encode_utf8_decode_utf8(s@); }
                Ok(s)
            },
            None => Err(CodecError::InvalidData("invalid utf-8")),
        }
    }
}


pub(crate) fn put_u8(out: &mut Vec<u8>, value: u8)
    ensures
        final(out)@ == old(out)@.push(value),
{
    out.push(value);
}

fn put_u16(out: &mut Vec<u8>, value: u16)
    ensures
        final(out)@ == old(out)@ + u16_le(value),
{
    out.push(value as u8);
    out.push((value >> 8u16) as u8);
    assert(out@ =~= old(out)@ + u16_le(value));
}

fn put_u32(out: &mut Vec<u8>, value: u32)
    ensures
        final(out)@ == old(out)@ + u32_le(value),
{
    out.push(value as u8);
    out.push((value >> 8u32) as u8);
    out.push((value >> 16u32) as u8);
    out.push((value >> 24u32) as u8);
    assert(out@ =~= old(out)@ + u32_le(value));
}

pub(crate) fn put_u64(out: &mut Vec<u8>, value: u64)
    ensures
        final(out)@ == old(out)@ + u64_le(value),
{
    out.push(value as u8);
    out.push((value >> 8u64) as u8);
    out.push((value >> 16u64) as u8);
    out.push((value >> 24u64) as u8);
    out.push((value >> 32u64) as u8);
    out.push((value >> 40u64) as u8);
    out.push((value >> 48u64) as u8);
    out.push((value >> 56u64) as u8);
    assert(out@ =~= old(out)@ + u64_le(value));
}

fn put_str(out: &mut Vec<u8>, value: &str) -> (r: Result<(), CodecError>)
    ensures
        final(out)@ == old(out)@ + text_wire(value@).bytes,
        r == text_wire(value@).outcome(),
{
    let bytes = value.as_bytes();
    let n = bytes.len();
    if n > 0xffff_ffffusize {
        assert(text_wire(value@).bytes =~= Seq::<u8>::empty());
        assert(out@ =~= old(out)@);
        return Err(CodecError::FrameTooLarge { len: n });
    }
    put_u32(out, n as u32);
    out.extend_from_slice(bytes);
    assert(out@ =~= old(out)@ + text_wire(value@).bytes);
    Ok(())
}

/// Appends an optional text: tag 0, or tag 1 and the text.
fn put_opt_str(out: &mut Vec<u8>, value: Option<&str>) -> (r: Result<(), CodecError>)
    ensures
        final(out)@ == old(out)@ + opt_text_wire(opt_str_text(value)).bytes,
        r == opt_text_wire(opt_str_text(value)).outcome(),
{
    match value {
        Some(value) => {
            put_u8(out, 1);
            let r = put_str(out, value);
            assert(out@ =~= old(out)@ + opt_text_wire(opt_str_text(Some(value))).bytes);
            r
        },
        None => {
            put_u8(out, 0);
            assert(out@ =~= old(out)@ + seq![0u8]);
            Ok(())
        },
    }
}

/// The characters of an optional borrowed text.
pub open spec fn opt_str_text(s: Option<&str>) -> Option<Seq<char>> {
    match s {
        Some(t) => Some(t@),
        None => None,
    }
}

/// Reads an optional text: tag 0 for none, tag 1 and a text for one; any
/// other tag is invalid.
fn decode_opt_str<'a>(input: &mut Cursor<'a>) -> (r: Result<Option<&'a str>, CodecError>)
    ensures
        final(input)@.0 == old(input)@.0,
        match opt_text_at(old(input)@.0, old(input)@.1 as int) {
            Ok((v, end)) => r matches Ok(x) && opt_str_text(x) == v && final(input)@.1 == end,
            Err(e) => r == Err::<Option<&'a str>, CodecError>(e),
        },
{
    let tag = input.u8()?;
    if tag == 0 {
        Ok(None)
    } else if tag == 1 {
        Ok(Some(input.str()?))
    } else {
        Err(CodecError::InvalidData("invalid option tag"))
    }
}

/// The borrowed text of an optional string.
fn opt_as_str(s: &Option<String>) -> (r: Option<&str>)
    ensures
        opt_str_text(r) == opt_text(*s),
{
    match s {
        Some(t) => Some(t.as_str()),
        None => None,
    }
}

/// An owned copy of an optional borrowed text.
fn opt_to_owned(s: Option<&str>) -> (r: Option<String>)
    ensures
        opt_text(r) == opt_str_text(s),
{
    match s {
        Some(t) => Some(t.to_owned()),
        None => None,
    }
}

/// The fields of an entry, in wire order.
fn put_entry(
    out: &mut Vec<u8>,
    id: u64,
    kind: EntryKind,
    name: &str,
    subtitle: Option<&str>,
    command: Option<&str>,
    icon: Option<&str>,
) -> (r: Result<(), CodecError>)
    ensures
        final(out)@ == old(out)@ + entry_wire(
            EntryModel {
                id,
                kind,
                name: name@,
                subtitle: opt_str_text(subtitle),
                command: opt_str_text(command),
                icon: opt_str_text(icon),
            },
        ).bytes,
        r == entry_wire(
            EntryModel {
                id,
                kind,
                name: name@,
                subtitle: opt_str_text(subtitle),
                command: opt_str_text(command),
                icon: opt_str_text(icon),
            },
        ).outcome(),
{
    let ghost start = out@;
    put_u64(out, id);
    let kind_result = kind.encode(out);
    assert(kind_result is Ok);
    let ghost w0 = WireOutput::ok(u64_le(id).push(kind_byte(kind)));
    assert(out@ =~= start + w0.bytes);
    let r = put_str(out, name);
    let ghost w1 = w0.and_then(text_wire(name@));
    assert(out@ =~= start + w1.bytes);
    if r.is_err() {
        return r;
    }
    let r = put_opt_str(out, subtitle);
    let ghost w2 = w1.and_then(opt_text_wire(opt_str_text(subtitle)));
    assert(out@ =~= start + w2.bytes);
    if r.is_err() {
        return r;
    }
    let r = put_opt_str(out, command);
    let ghost w3 = w2.and_then(opt_text_wire(opt_str_text(command)));
    assert(out@ =~= start + w3.bytes);
    if r.is_err() {
        return r;
    }
    let r = put_opt_str(out, icon);
    let ghost w4 = w3.and_then(opt_text_wire(opt_str_text(icon)));
    assert(out@ =~= start + w4.bytes);
    r
}

impl WireEncode for EntryKind {
    open spec fn wire(&self) -> WireOutput {
        WireOutput::ok(seq![kind_byte(*self)])
    }

    fn encode(&self, out: &mut Vec<u8>) -> (r: Result<(), CodecError>) {
        put_u8(
            out,
            match self {
                EntryKind::Application => 0,
                EntryKind::File => 1,
                EntryKind::PluginCommand => 2,
            },
        );
        assert(out@ =~= old(out)@ + self.wire().bytes);
        Ok(())
    }
}

impl WireDecode for EntryKind {
    open spec fn parse(s: Seq<u8>, pos: int) -> Parsed<EntryKind> {
        kind_at(s, pos)
    }

    fn decode(input: &mut Cursor) -> (r: Result<Self, CodecError>) {
        let tag = input.u8()?;
        if tag == 0 {
            Ok(EntryKind::Application)
        } else if tag == 1 {
            Ok(EntryKind::File)
        } else if tag == 2 {
            Ok(EntryKind::PluginCommand)
        } else {
            Err(CodecError::InvalidData("invalid entry kind"))
        }
    }
}

impl WireEncode for Entry {
    open spec fn wire(&self) -> WireOutput {
        entry_wire(self@)
    }

    fn encode(&self, out: &mut Vec<u8>) -> (r: Result<(), CodecError>) {
        put_entry(
            out,
            self.id,
            self.kind,
            self.name.as_str(),
            opt_as_str(&self.subtitle),
            opt_as_str(&self.command),
            opt_as_str(&self.icon),
        )
    }
}

impl WireDecode for Entry {
    open spec fn parse(s: Seq<u8>, pos: int) -> Parsed<crate::messages::EntryModel> {
        entry_at(s, pos)
    }

    fn decode(input: &mut Cursor) -> (r: Result<Self, CodecError>) {
        proof {
            reveal(entry_at);
        }
        let id = input.u64()?;
        let kind = EntryKind::decode(input)?;
        let name = input.str()?.to_owned();
        let subtitle = opt_to_owned(decode_opt_str(input)?);
        let command = opt_to_owned(decode_opt_str(input)?);
        let icon = opt_to_owned(decode_opt_str(input)?);
        Ok(Entry { id, kind, name, subtitle, command, icon })
    }
}


impl WireEncode for EntryRef {
    open spec fn wire(&self) -> WireOutput {
        entry_wire(self@)
    }

    fn encode(&self, out: &mut Vec<u8>) -> (r: Result<(), CodecError>) {
        put_entry(
            out,
            self.id,
            self.kind,
            self.name.as_str(),
            opt_as_str(&self.subtitle),
            opt_as_str(&self.command),
            opt_as_str(&self.icon),
        )
    }
}

impl WireDecode for EntryRef {
    open spec fn parse(s: Seq<u8>, pos: int) -> Parsed<crate::messages::EntryModel> {
        entry_at(s, pos)
    }

    fn decode(input: &mut Cursor) -> (r: Result<Self, CodecError>) {
        proof {
            reveal(entry_at);
        }
        let id = input.u64()?;
        let kind = EntryKind::decode(input)?;
        let name = input.str()?.to_owned();
        let subtitle = opt_to_owned(decode_opt_str(input)?);
        let command = opt_to_owned(decode_opt_str(input)?);
        let icon = opt_to_owned(decode_opt_str(input)?);
        Ok(EntryRef { id, kind, name, subtitle, command, icon })
    }
}

impl WireEncode for Request {
    open spec fn wire(&self) -> WireOutput {
        request_wire(self@)
    }

    fn encode(&self, out: &mut Vec<u8>) -> (r: Result<(), CodecError>) {
        match self {
            Request::Hello { client_version } => {
                put_u8(out, 0);
                put_str(out, client_version.as_str())
            },
            Request::Ping => {
                put_u8(out, 1);
                assert(out@ =~= old(out)@ + self.wire().bytes);
                Ok(())
            },
            Request::Shutdown => {
                put_u8(out, 2);
                assert(out@ =~= old(out)@ + self.wire().bytes);
                Ok(())
            },
            Request::ListEntries { limit } => {
                put_u8(out, 3);
                put_u16(out, *limit);
                assert(out@ =~= old(out)@ + self.wire().bytes);
                Ok(())
            },
        }
    }
}

impl WireDecode for Request {
    open spec fn parse(s: Seq<u8>, pos: int) -> Parsed<crate::messages::RequestModel> {
        request_at(s, pos)
    }

    fn decode(input: &mut Cursor) -> (r: Result<Self, CodecError>) {
        let tag = input.u8()?;
        if tag == 0 {
            Ok(Request::Hello { client_version: input.str()?.to_owned() })
        } else if tag == 1 {
            Ok(Request::Ping)
        } else if tag == 2 {
            Ok(Request::Shutdown)
        } else if tag == 3 {
            Ok(Request::ListEntries { limit: input.u16()? })
        } else {
            Err(CodecError::InvalidData("invalid request tag"))
        }
    }
}

impl WireEncode for Response {
    open spec fn wire(&self) -> WireOutput {
        response_wire(self@)
    }

    #[verifier::rlimit(40)]
    fn encode(&self, out: &mut Vec<u8>) -> (r: Result<(), CodecError>) {
        match self {
            Response::Hello { daemon_version, protocol_version } => {
                put_u8(out, 0);
                put_str(out, daemon_version.as_str())?;
                put_u16(out, *protocol_version);
                assert(out@ =~= old(out)@ + self.wire().bytes);
                Ok(())
            },
            Response::Pong => {
                put_u8(out, 1);
                assert(out@ =~= old(out)@ + self.wire().bytes);
                Ok(())
            },
            Response::Ack => {
                put_u8(out, 2);
                assert(out@ =~= old(out)@ + self.wire().bytes);
                Ok(())
            },
            Response::Entries { items, more } => {
                put_u8(out, 3);
                put_u8(out, if *more { 1 } else { 0 });
                let n = items.len();
                if n > 0xffff_ffffusize {
                    assert(out@ =~= old(out)@ + self.wire().bytes);
                    return Err(CodecError::FrameTooLarge { len: n });
                }
                put_u32(out, n as u32);
                let r = put_entries(out, items);
                assert(out@ =~= old(out)@ + self.wire().bytes);
                r
            },
            Response::Error { message } => {
                put_u8(out, 4);
                put_str(out, message.as_str())
            },
        }
    }
}

impl WireDecode for Response {
    open spec fn parse(s: Seq<u8>, pos: int) -> Parsed<crate::messages::ResponseModel> {
        response_at(s, pos)
    }

    fn decode(input: &mut Cursor) -> (r: Result<Self, CodecError>) {
        let tag = input.u8()?;
        if tag == 0 {
            let daemon_version = input.str()?.to_owned();
            let protocol_version = input.u16()?;
            Ok(Response::Hello { daemon_version, protocol_version })
        } else if tag == 1 {
            Ok(Response::Pong)
        } else if tag == 2 {
            Ok(Response::Ack)
        } else if tag == 3 {
            let flag = input.u8()?;
            let more = if flag == 0 {
                false
            } else if flag == 1 {
                true
            } else {
                return Err(CodecError::InvalidData("invalid bool"));
            };
            let n = input.u32()? as usize;
            let items = decode_entries(input, n)?;
            Ok(Response::Entries { items, more })
        } else if tag == 4 {
            Ok(Response::Error { message: input.str()?.to_owned() })
        } else {
            Err(CodecError::InvalidData("invalid response tag"))
        }
    }
}

/// Entries one after another.
fn put_entries(out: &mut Vec<u8>, items: &Vec<EntryRef>) -> (r: Result<(), CodecError>)
    ensures
        final(out)@ == old(out)@ + entries_wire(entry_models(items@)).bytes,
        r == entries_wire(entry_models(items@)).outcome(),
{
    let ghost models = entry_models(items@);
    let ghost start = out@;
    assert(models.take(0) =~= Seq::<crate::messages::EntryModel>::empty());
    assert(out@ =~= start + entries_wire(models.take(0)).bytes);
    let mut i: usize = 0;
    while i < items.len()
        invariant
            i <= items@.len(),
            models == entry_models(items@),
            models.len() == items@.len(),
            start == old(out)@,
            entries_wire(models.take(i as int)).overflow is None,
            out@ == start + entries_wire(models.take(i as int)).bytes,
        decreases items@.len() - i,
    {
        proof {
            lemma_entries_wire_step(models, i as int);
        }
        let r = items[i].encode(out);
        assert(items@[i as int]@ == models[i as int]);
        match r {
            Err(e) => {
                proof {
                    lemma_entries_wire_failed_prefix(models, i as nat + 1);
                }
                assert(out@ =~= start + entries_wire(models).bytes);
                return Err(e);
            },
            Ok(()) => {},
        }
        assert(out@ =~= start + entries_wire(models.take(i as int + 1)).bytes);
        i = i + 1;
    }
    assert(models.take(i as int) =~= models);
    Ok(())
}

/// `n` entries one after another.
fn decode_entries(input: &mut Cursor, n: usize) -> (r: Result<Vec<EntryRef>, CodecError>)
    ensures
        final(input)@.0 == old(input)@.0,
        match entries_at(old(input)@.0, old(input)@.1 as int, n as nat) {
            Ok((v, end)) => r matches Ok(x) && entry_models(x@) == v && final(input)@.1 == end,
            Err(e) => r == Err::<Vec<EntryRef>, CodecError>(e),
        },
{
    let ghost s = input@.0;
    let ghost start = input@.1 as int;
    let mut items: Vec<EntryRef> = Vec::with_capacity(if n < 1024 { n } else { 1024 });
    assert(entry_models(items@) =~= Seq::<crate::messages::EntryModel>::empty());
    let mut i: usize = 0;
    while i < n
        invariant
            i <= n,
            s == old(input)@.0,
            start == old(input)@.1 as int,
            input@.0 == s,
            entries_at(s, start, i as nat) == Ok::<(Seq<crate::messages::EntryModel>, int), CodecError>(
                (entry_models(items@), input@.1 as int),
            ),
        decreases n - i,
    {
        let item = match EntryRef::decode(input) {
            Ok(item) => item,
            Err(e) => {
                proof {
                    lemma_entries_error_persists(s, start, i as nat + 1, n as nat);
                }
                return Err(e);
            },
        };
        let ghost prev = items@;
        items.push(item);
        assert(entry_models(items@) =~= entry_models(prev).push(items@.last()@));
        i = i + 1;
    }
    Ok(items)
}

/// Encoding one more entry extends the encoding of the ones before it.
proof fn lemma_entries_wire_step(items: Seq<crate::messages::EntryModel>, i: int)
    requires
        0 <= i < items.len(),
    ensures
        entries_wire(items.take(i + 1)) == entries_wire(items.take(i)).and_then(
            entry_wire(items[i]),
        ),
{
    assert(items.take(i + 1).drop_last() =~= items.take(i));
    assert(items.take(i + 1).last() == items[i]);
}

/// When the encoding of a prefix of entries fails, so does that of all of them.
proof fn lemma_entries_wire_failed_prefix(items: Seq<crate::messages::EntryModel>, k: nat)
    requires
        k <= items.len(),
        entries_wire(items.take(k as int)).overflow is Some,
    ensures
        entries_wire(items) == entries_wire(items.take(k as int)),
    decreases items.len() - k,
{
    if k < items.len() {
        assert(items.take(k as int + 1).drop_last() =~= items.take(k as int));
        lemma_entries_wire_failed_prefix(items, k + 1);
    } else {
        assert(items.take(k as int) =~= items);
    }
}


/// The frame `frame` followed by `rest` announces a payload that fits and
/// lies whole within it.
pub open spec fn frame_is_whole(frame: Seq<u8>, rest: Seq<u8>) -> bool {
    let input = frame + rest;
    &&& input.len() >= 4
    &&& announced_len(input) <= MAX_FRAME_BYTES
    &&& input.len() >= 4 + announced_len(input)
}

/// The payload of the frame that starts `input`.
pub open spec fn payload(input: Seq<u8>) -> Seq<u8> {
    input.subrange(4, 4 + announced_len(input))
}

pub proof fn lemma_frame_payload(w: WireOutput, rest: Seq<u8>)
    requires
        frame_of(w) is Ok,
    ensures
        frame_is_whole(frame_of(w)->Ok_0, rest),
        holds_at(payload(frame_of(w)->Ok_0 + rest), 0, w.bytes),
        payload(frame_of(w)->Ok_0 + rest) == w.bytes,
        payload(frame_of(w)->Ok_0 + rest).len() <= usize::MAX,
{
    let input = frame_of(w)->Ok_0 + rest;
    let n = w.bytes.len() as u32;
    assert(input.subrange(0, 4) =~= u32_le(n));
    lemma_u32_round_trip(n);
    assert(u32_of(input) == u32_of(input.subrange(0, 4)));
    assert(payload(input) =~= w.bytes);
    assert(payload(input).subrange(0, w.bytes.len() as int) =~= w.bytes);
}

/// Reading the frame that `write_message` wrote for a request gives back that
/// request, whatever bytes follow the frame.
pub proof fn law_request_round_trip(r: RequestModel, rest: Seq<u8>)
    requires
        frame_of(request_wire(r)) is Ok,
    ensures
        frame_is_whole(frame_of(request_wire(r))->Ok_0, rest),
        request_at(payload(frame_of(request_wire(r))->Ok_0 + rest), 0) matches Ok((v, _)) && v
            == r,
{
    lemma_frame_payload(request_wire(r), rest);
    lemma_request_read(payload(frame_of(request_wire(r))->Ok_0 + rest), 0, r);
}

/// Reading the frame that `write_message` wrote for a response gives back
/// that response, whatever bytes follow the frame.
pub proof fn law_response_round_trip(r: ResponseModel, rest: Seq<u8>)
    requires
        frame_of(response_wire(r)) is Ok,
    ensures
        frame_is_whole(frame_of(response_wire(r))->Ok_0, rest),
        response_at(payload(frame_of(response_wire(r))->Ok_0 + rest), 0) matches Ok((v, _)) && v
            == r,
{
    lemma_frame_payload(response_wire(r), rest);
    lemma_response_read(payload(frame_of(response_wire(r))->Ok_0 + rest), 0, r);
}

/// Reading the frame that `write_message` wrote for an entry gives back that
/// entry, whatever bytes follow the frame.
pub proof fn law_entry_round_trip(e: EntryModel, rest: Seq<u8>)
    requires
        frame_of(entry_wire(e)) is Ok,
    ensures
        frame_is_whole(frame_of(entry_wire(e))->Ok_0, rest),
        entry_at(payload(frame_of(entry_wire(e))->Ok_0 + rest), 0) matches Ok((v, _)) && v == e,
{
    lemma_frame_payload(entry_wire(e), rest);
    lemma_entry_read(payload(frame_of(entry_wire(e))->Ok_0 + rest), 0, e);
}

/// An optional text that `put_opt_str` wrote (so that its length fits the
/// wire) reads back as that text, with the read ending just after it,
/// whatever bytes follow.
pub proof fn law_opt_text_round_trip(t: Option<Seq<char>>, rest: Seq<u8>)
    requires
        opt_text_wire(t).overflow is None,
        opt_text_wire(t).bytes.len() + rest.len() <= usize::MAX,
    ensures
        opt_text_at(opt_text_wire(t).bytes + rest, 0) == Ok::<(Option<Seq<char>>, int), CodecError>(
            (t, opt_text_wire(t).bytes.len() as int),
        ),
{
    let s = opt_text_wire(t).bytes + rest;
    assert(s.subrange(0, opt_text_wire(t).bytes.len() as int) =~= opt_text_wire(t).bytes);
    lemma_opt_text_read(s, 0, t);
}

/// An optional text whose tag is neither 0 nor 1 is refused as an invalid
/// option tag.
pub proof fn law_opt_text_bad_tag(s: Seq<u8>, pos: int)
    requires
        0 <= pos < s.len(),
        s.len() <= usize::MAX,
        s[pos] != 0,
        s[pos] != 1,
    ensures
        opt_text_at(s, pos) == Err::<(Option<Seq<char>>, int), CodecError>(
            CodecError::InvalidData("invalid option tag"),
        ),
{
}

/// An optional text whose UTF-8 form fits a `u32` length encodes.
proof fn lemma_opt_text_encodes(t: Option<Seq<char>>)
    requires
        t matches Some(x) ==> encode_utf8(x).len() <= u32::MAX,
    ensures
        opt_text_wire(t).overflow is None,
{
}

/// An entry encodes whenever its name and its optional texts each have a
/// UTF-8 form whose length fits a `u32`.
pub proof fn law_entry_encodes(e: EntryModel)
    requires
        encode_utf8(e.name).len() <= u32::MAX,
        e.subtitle matches Some(t) ==> encode_utf8(t).len() <= u32::MAX,
        e.command matches Some(t) ==> encode_utf8(t).len() <= u32::MAX,
        e.icon matches Some(t) ==> encode_utf8(t).len() <= u32::MAX,
    ensures
        entry_wire(e).overflow is None,
{
    lemma_opt_text_encodes(e.subtitle);
    lemma_opt_text_encodes(e.command);
    lemma_opt_text_encodes(e.icon);
}

/// A run of entries encodes whenever each of them does, however many there
/// are.
pub proof fn law_entries_encode(items: Seq<EntryModel>)
    requires
        forall|i: int| 0 <= i < items.len() ==> (#[trigger] entry_wire(items[i])).overflow is None,
    ensures
        entries_wire(items).overflow is None,
    decreases items.len(),
{
    if items.len() > 0 {
        let front = items.drop_last();
        assert forall|i: int| 0 <= i < front.len() implies (#[trigger] entry_wire(
            front[i],
        )).overflow is None by {
            assert(front[i] == items[i]);
        }
        law_entries_encode(front);
        assert(entry_wire(items[items.len() - 1]).overflow is None);
    }
}

/// A listing response encodes whenever its count fits a `u32` and each of
/// its entries encodes: it starts with tag 3, the `more` flag as 0 or 1 and
/// the count as a little-endian `u32`, and when it is no larger than
/// [`MAX_FRAME_BYTES`] it is framed without error.
pub proof fn law_entries_response_encodes(items: Seq<EntryModel>, more: bool)
    requires
        items.len() <= u32::MAX,
        forall|i: int| 0 <= i < items.len() ==> (#[trigger] entry_wire(items[i])).overflow is None,
    ensures
        ({
            let w = response_wire(ResponseModel::Entries { items, more });
            &&& w.overflow is None
            &&& w.bytes.len() >= 6
            &&& w.bytes[0] == 3u8
            &&& w.bytes[1] == (if more { 1u8 } else { 0u8 })
            &&& w.bytes.subrange(2, 6) == u32_le(items.len() as u32)
            &&& w.bytes.len() <= MAX_FRAME_BYTES ==> frame_of(w) is Ok
        }),
{
    law_entries_encode(items);
    let w = response_wire(ResponseModel::Entries { items, more });
    let head = seq![3u8, bool_byte(more)] + u32_le(items.len() as u32);
    assert(w.bytes == head + entries_wire(items).bytes);
    assert(w.bytes.subrange(2, 6) =~= u32_le(items.len() as u32));
}

} // verus!

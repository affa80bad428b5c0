//! Application index: the store image format, listing, and the index
//! operations.
//!
//! The index lives in one file: the magic `SRIDX001`, the schema version, the
//! time of the last write and the entry count as little-endian `u64`s, then
//! each entry as a codec frame, in increasing id order. Reading, writing and
//! walking directories are the caller's part; this module decides what the
//! store holds and what each operation makes of it.

use std::collections::BTreeMap;
use std::path::PathBuf;
use vstd::prelude::*;
use vstd::slice::slice_subrange;
use vstd::string::StringSliceAdditionalSpecFns;
use vstd::utf8::encode_utf8;
use crate::codec::{
    CodecError, codec_text, MAX_FRAME_BYTES, announced_len, frame_of, payload, read_message, write_message,
    put_u8, put_u64, le_u32, lemma_frame_payload,
};
use crate::desktop::{
    desktop_entry, desktop_file_name, fnv1a, is_desktop_file_name, parse_desktop_entry, stable_id, chars_of,
    text_between,
};
use crate::messages::{Entry, EntryModel, opt_text};
use crate::order::lemma_u64_table_len;
use crate::table::{in_id_order, lemma_id_order_exists, lemma_id_ordered_prefix, lists_first, first_entries, id_ordered, keyed_by_id, min_count, models, table_model};
use vstd::string::StringExecFns;
use crate::trusted::{unexpected_eof, io_error_text};
use crate::wire::{entry_at, entry_wire, u64_le, u64_of, holds_at, lemma_holds_split, lemma_entry_read, lemma_u64_round_trip};

verus! {

/// Indexer error.
#[derive(Debug)]
pub enum IndexError {
    /// I/O failed.
    Io(std::io::Error),
    /// Codec failed.
    Codec(CodecError),
    /// Store format is invalid.
    InvalidStore(&'static str),
}

impl From<std::io::Error> for IndexError {
    fn from(value: std::io::Error) -> (r: Self)
        ensures
            r == IndexError::Io(value),
    {
        IndexError::Io(value)
    }
}

impl vstd::std_specs::convert::FromSpecImpl<std::io::Error> for IndexError {
    open spec fn obeys_from_spec() -> bool {
        true
    }

    open spec fn from_spec(value: std::io::Error) -> Self {
        IndexError::Io(value)
    }
}

impl From<CodecError> for IndexError {
    fn from(value: CodecError) -> (r: Self)
        ensures
            r == IndexError::Codec(value),
    {
        IndexError::Codec(value)
    }
}

impl vstd::std_specs::convert::FromSpecImpl<CodecError> for IndexError {
    open spec fn obeys_from_spec() -> bool {
        true
    }

    open spec fn from_spec(value: CodecError) -> Self {
        IndexError::Codec(value)
    }
}

/// The text of an index error, given the text `io` of the I/O error it may
/// carry.
pub open spec fn index_text(e: IndexError, io: Seq<char>) -> Seq<char> {
    match e {
        IndexError::Io(_) => "I/O error: "@ + io,
        IndexError::Codec(c) => "codec error: "@ + codec_text(c, io),
        IndexError::InvalidStore(msg) => msg@,
    }
}

impl IndexError {
    /// Human-readable description: `I/O error: ...`, `codec error: ...`, or
    /// the invalid-store message.
    pub fn message(&self) -> (s: String)
        ensures
            exists|io: Seq<char>| s@ == index_text(*self, io),
    {
        match self {
            IndexError::Io(err) => {
                let text = io_error_text(err);
                let s = String::from_str("I/O error: ").concat(text.as_str());
                assert(s@ == index_text(*self, text@));
                s
            },
            IndexError::Codec(err) => {
                let inner = err.message();
                let s = String::from_str("codec error: ").concat(inner.as_str());
                let ghost io = choose|io: Seq<char>| inner@ == codec_text(*err, io);
                assert(s@ == index_text(*self, io));
                s
            },
            IndexError::InvalidStore(msg) => {
                let s = String::from_str(msg);
                assert(s@ == index_text(*self, Seq::empty()));
                s
            },
        }
    }
}

/// Index operation.
#[derive(Debug)]
pub enum IndexOperation {
    /// Rebuild from every configured application directory.
    FullRescan,
    /// Refresh one changed path.
    IncrementalUpdate(PathBuf),
}

/// Durable application index handle: where the store lives and which
/// directories hold applications.
#[derive(Debug)]
pub struct AppIndex {
    db_path: PathBuf,
    app_dirs: Vec<PathBuf>,
}

/// A desktop file found while scanning: its path (as text) and its content.
pub struct DesktopSource {
    /// The file's path.
    pub path: String,
    /// The file's text.
    pub content: String,
}

/// What the caller gathered from disk for an operation.
pub enum Gathered {
    /// For a full rescan: every desktop file under the application
    /// directories, in the order the scan met them.
    Scanned(Vec<DesktopSource>),
    /// For an incremental update: the current store image, the changed
    /// path and its file name (as text; no name for a path such as `/` or
    /// `..`), and the file's text when it exists and its name marks a
    /// desktop file ([`is_desktop_file_name`]).
    Changed { store: Vec<u8>, path: String, file_name: Option<String>, content: Option<String> },
}

/// The store's magic bytes, `SRIDX001`.
pub open spec fn store_magic() -> Seq<u8> {
    seq![0x53u8, 0x52u8, 0x49u8, 0x44u8, 0x58u8, 0x30u8, 0x30u8, 0x31u8]
}

/// The store's schema version.
pub const SCHEMA_VERSION: u64 = 1;

/// The store header: magic, schema version, time of writing, entry count.
pub open spec fn store_header(now: u64, count: u64) -> Seq<u8> {
    store_magic() + u64_le(SCHEMA_VERSION) + u64_le(now) + u64_le(count)
}

/// The frames of `items`, one after another, or the first frame's error.
pub open spec fn frames(items: Seq<EntryModel>) -> Result<Seq<u8>, CodecError>
    decreases items.len(),
{
    if items.len() == 0 {
        Ok(Seq::empty())
    } else {
        match frames(items.drop_last()) {
            Err(e) => Err(e),
            Ok(b) => match frame_of(entry_wire(items.last())) {
                Err(e) => Err(e),
                Ok(f) => Ok(b + f),
            },
        }
    }
}

/// The store image of the entries `m`, written at time `now`.
pub open spec fn store_image(m: Map<u64, EntryModel>, now: u64) -> Result<Seq<u8>, CodecError> {
    match frames(id_ordered(m)) {
        Err(e) => Err(e),
        Ok(b) => Ok(store_header(now, m.dom().len() as u64) + b),
    }
}

/// What reading one frame at `pos` gives.
pub enum FrameRead {
    Got(EntryModel, int),
    Truncated,
    Failed(CodecError),
}

/// Reading one entry frame at `pos` of `s`, as `read_message` reads it.
pub open spec fn frame_read(s: Seq<u8>, pos: int) -> FrameRead {
    let rest = s.subrange(pos, s.len() as int);
    if rest.len() < 4 {
        FrameRead::Truncated
    } else if announced_len(rest) > MAX_FRAME_BYTES {
        FrameRead::Failed(CodecError::FrameTooLarge { len: announced_len(rest) as usize })
    } else if rest.len() < 4 + announced_len(rest) {
        FrameRead::Truncated
    } else {
        match entry_at(payload(rest), 0) {
            Ok((e, _)) => FrameRead::Got(e, pos + 4 + announced_len(rest)),
            Err(e) => FrameRead::Failed(e),
        }
    }
}

/// What reading `n` entry frames from `pos` gives.
pub enum FramesRead {
    Done(Map<u64, EntryModel>, int),
    Truncated,
    Failed(CodecError),
}

/// Reading `n` frames one after another from `pos`, each entry stored under
/// its id (a later one with the same id replaces an earlier one).
pub open spec fn frames_read(s: Seq<u8>, pos: int, n: nat) -> FramesRead
    decreases n,
{
    if n == 0 {
        FramesRead::Done(Map::empty(), pos)
    } else {
        match frames_read(s, pos, (n - 1) as nat) {
            FramesRead::Done(m, p) => match frame_read(s, p) {
                FrameRead::Got(e, q) => FramesRead::Done(m.insert(e.id, e), q),
                FrameRead::Truncated => FramesRead::Truncated,
                FrameRead::Failed(e) => FramesRead::Failed(e),
            },
            other => other,
        }
    }
}

/// What reading a store image gives.
pub enum StoreRead {
    /// The entries, by id.
    Loaded(Map<u64, EntryModel>),
    /// The header ended early.
    Truncated,
    /// An entry frame ended early.
    FrameTruncated,
    /// The store is invalid.
    Failed(IndexError),
}

/// Reading the store image `s`: the header is checked, then as many frames
/// as it counts are read; bytes after them are ignored.
pub open spec fn read_store(s: Seq<u8>) -> StoreRead {
    if s.len() < 8 {
        StoreRead::Truncated
    } else if s.subrange(0, 8) != store_magic() {
        StoreRead::Failed(IndexError::InvalidStore("bad index magic"))
    } else if s.len() < 16 {
        StoreRead::Truncated
    } else if u64_of(s.subrange(8, 16)) != SCHEMA_VERSION {
        StoreRead::Failed(IndexError::InvalidStore("unsupported schema"))
    } else if s.len() < 32 {
        StoreRead::Truncated
    } else {
        match frames_read(s, 32, u64_of(s.subrange(24, 32)) as nat) {
            FramesRead::Done(m, _) => StoreRead::Loaded(m),
            FramesRead::Truncated => StoreRead::FrameTruncated,
            FramesRead::Failed(e) => StoreRead::Failed(IndexError::Codec(e)),
        }
    }
}

/// The `u64` whose little-endian bytes are `b[at..at + 8]`.
fn le_u64_at(b: &[u8], at: usize) -> (v: u64)
    requires
        at + 8 <= b@.len(),
    ensures
        v == u64_of(b@.subrange(at as int, at + 8)),
{
    (b[at] as u64) | ((b[at + 1] as u64) << 8u64) | ((b[at + 2] as u64) << 16u64) | ((b[at
        + 3] as u64) << 24u64) | ((b[at + 4] as u64) << 32u64) | ((b[at + 5] as u64) << 40u64)
        | ((b[at + 6] as u64) << 48u64) | ((b[at + 7] as u64) << 56u64)
}

/// Decode a store image into its entries, keyed by id.
pub fn decode_store(bytes: &[u8]) -> (r: Result<BTreeMap<u64, Entry>, IndexError>)
    ensures
        match read_store(bytes@) {
            StoreRead::Loaded(m) => r matches Ok(t) && table_model(t@) == m && keyed_by_id(m),
            StoreRead::Truncated => r matches Err(IndexError::Io(_)),
            StoreRead::FrameTruncated => r matches Err(IndexError::Codec(CodecError::Io(_))),
            StoreRead::Failed(e) => r == Err::<BTreeMap<u64, Entry>, IndexError>(e),
        },
{
    if bytes.len() < 8 {
        return Err(IndexError::Io(unexpected_eof()));
    }
    let magic = [0x53u8, 0x52u8, 0x49u8, 0x44u8, 0x58u8, 0x30u8, 0x30u8, 0x31u8];
    assert(magic@ =~= store_magic());
    let mut k: usize = 0;
    while k < 8
        invariant
            k <= 8 <= bytes@.len(),
            magic@ == store_magic(),
            forall|j: int| 0 <= j < k ==> bytes@[j] == magic@[j],
        decreases 8 - k,
    {
        if bytes[k] != magic[k] {
            assert(bytes@.subrange(0, 8)[k as int] != store_magic()[k as int]);
            return Err(IndexError::InvalidStore("bad index magic"));
        }
        k = k + 1;
    }
    assert(bytes@.subrange(0, 8) =~= store_magic());
    if bytes.len() < 16 {
        return Err(IndexError::Io(unexpected_eof()));
    }
    if le_u64_at(bytes, 8) != SCHEMA_VERSION {
        return Err(IndexError::InvalidStore("unsupported schema"));
    }
    if bytes.len() < 32 {
        return Err(IndexError::Io(unexpected_eof()));
    }
    let count = le_u64_at(bytes, 24);
    let mut table: BTreeMap<u64, Entry> = BTreeMap::new();
    let mut pos: usize = 32;
    let mut i: u64 = 0;
    assert(table_model(table@) =~= Map::<u64, EntryModel>::empty());
    while i < count
        invariant
            i <= count,
            32 <= pos <= bytes@.len(),
            keyed_by_id(table_model(table@)),
            frames_read(bytes@, 32, i as nat) == FramesRead::Done(table_model(table@), pos as int),
            read_store(bytes@) == match frames_read(bytes@, 32, count as nat) {
                FramesRead::Done(m, _) => StoreRead::Loaded(m),
                FramesRead::Truncated => StoreRead::FrameTruncated,
                FramesRead::Failed(e) => StoreRead::Failed(IndexError::Codec(e)),
            },
        decreases count - i,
    {
        let rest = slice_subrange(bytes, pos, bytes.len());
        let res: Result<Entry, CodecError> = read_message(rest);
        match res {
            Ok(entry) => {
                let len = le_u32(rest) as usize;
                let ghost before = table@;
                let id = entry.id;
                assert(frame_read(bytes@, pos as int) == FrameRead::Got(entry@, pos + 4 + len));
                table.insert(id, entry);
                assert(table_model(table@) =~= table_model(before).insert(id, table@[id]@));
                pos = pos + 4 + len;
                i = i + 1;
            },
            Err(e) => {
                proof {
                    lemma_frames_error_persists(bytes@, 32, i as nat + 1, count as nat);
                }
                return Err(IndexError::Codec(e));
            },
        }
    }
    Ok(table)
}

/// `r` is what an operation returns for the store image `image`.
pub open spec fn image_result(image: Result<Seq<u8>, CodecError>, r: Result<Vec<u8>, IndexError>) -> bool {
    match image {
        Ok(b) => r matches Ok(v) && v@ == b,
        Err(e) => r == Err::<Vec<u8>, IndexError>(IndexError::Codec(e)),
    }
}

/// The store image of `table`, written at time `now`.
#[verifier::rlimit(40)]
pub fn encode_store(table: &BTreeMap<u64, Entry>, now: u64) -> (r: Result<Vec<u8>, IndexError>)
    requires
        keyed_by_id(table_model(table@)),
    ensures
        image_result(store_image(table_model(table@), now), r),
{
    let ghost m = table_model(table@);
    let mut out: Vec<u8> = Vec::new();
    let magic = [0x53u8, 0x52u8, 0x49u8, 0x44u8, 0x58u8, 0x30u8, 0x30u8, 0x31u8];
    let mut k: usize = 0;
    while k < 8
        invariant
            k <= 8,
            out@ == magic@.take(k as int),
        decreases 8 - k,
    {
        out.push(magic[k]);
        assert(out@ =~= magic@.take(k as int + 1));
        k = k + 1;
    }
    assert(magic@ =~= store_magic());
    put_u64(&mut out, SCHEMA_VERSION);
    put_u64(&mut out, now);
    proof {
        lemma_u64_table_len(table);
    }
    assert(m.dom() =~= table@.dom());
    let n = table.len();
    put_u64(&mut out, n as u64);
    let ghost header = out@;
    assert(header =~= store_header(now, m.dom().len() as u64));
    let items = first_entries(table, n);
    let ghost ordered = id_ordered(m);
    assert(ordered.take(min_count(n as int, m.dom().len() as int)) =~= ordered);
    let mut i: usize = 0;
    assert(ordered.take(0) =~= Seq::<EntryModel>::empty());
    let ghost mut body: Seq<u8> = Seq::empty();
    assert(out@ =~= header + body);
    while i < items.len()
        invariant
            i <= items@.len(),
            models(items@) == ordered,
            m == table_model(table@),
            ordered == id_ordered(m),
            header == store_header(now, m.dom().len() as u64),
            frames(ordered.take(i as int)) == Ok::<Seq<u8>, CodecError>(body),
            out@ == header + body,
        decreases items@.len() - i,
    {
        proof {
            lemma_frames_step(ordered, i as int);
        }
        assert(ordered[i as int] == items@[i as int]@);
        match write_message(&mut out, &items[i]) {
            Ok(()) => {},
            Err(e) => {
                assert(frames(ordered.take(i as int + 1)) == Err::<Seq<u8>, CodecError>(e));
                proof {
                    lemma_frames_failed_prefix(ordered, i as nat + 1);
                }
                return Err(IndexError::Codec(e));
            },
        }
        proof {
            body = body + frame_of(entry_wire(ordered[i as int]))->Ok_0;
        }
        assert(out@ =~= header + body);
        i = i + 1;
    }
    assert(ordered.take(i as int) =~= ordered);
    Ok(out)
}

/// The frames of one more entry extend those of the ones before it.
proof fn lemma_frames_step(items: Seq<EntryModel>, i: int)
    requires
        0 <= i < items.len(),
    ensures
        frames(items.take(i + 1)) == match frames(items.take(i)) {
            Err(e) => Err(e),
            Ok(b) => match frame_of(entry_wire(items[i])) {
                Err(e) => Err(e),
                Ok(f) => Ok(b + f),
            },
        },
{
    assert(items.take(i + 1).drop_last() =~= items.take(i));
    assert(items.take(i + 1).last() == items[i]);
}

/// When the frames of a prefix of entries fail, so do those of all of them.
proof fn lemma_frames_failed_prefix(items: Seq<EntryModel>, k: nat)
    requires
        k <= items.len(),
        frames(items.take(k as int)) is Err,
    ensures
        frames(items) == frames(items.take(k as int)),
    decreases items.len() - k,
{
    if k < items.len() {
        assert(items.take(k as int + 1).drop_last() =~= items.take(k as int));
        lemma_frames_failed_prefix(items, k + 1);
    } else {
        assert(items.take(k as int) =~= items);
    }
}

/// The entries that a full rescan finds: each scanned file that describes an
/// entry adds it under its id, in scan order (a later file with the same id
/// replaces an earlier one).
pub open spec fn scanned_table(files: Seq<DesktopSource>) -> Map<u64, EntryModel>
    decreases files.len(),
{
    if files.len() == 0 {
        Map::empty()
    } else {
        let m = scanned_table(files.drop_last());
        let f = files.last();
        match desktop_entry(fnv1a(encode_utf8(f.path@)), f.content@) {
            Some(e) => m.insert(e.id, e),
            None => m,
        }
    }
}

/// The entries after an incremental update of `path`, whose file name is
/// `name`: when the name marks a desktop file and the file is there with
/// text `content`, the entry that text describes replaces the one under the
/// path's id; otherwise (no desktop file, no file, or no entry described)
/// the id is removed.
pub open spec fn updated_table(
    m: Map<u64, EntryModel>,
    path: Seq<char>,
    name: Option<Seq<char>>,
    content: Option<Seq<char>>,
) -> Map<u64, EntryModel> {
    let id = fnv1a(encode_utf8(path));
    let desktop = name matches Some(n) && desktop_file_name(n);
    match content {
        Some(c) => if desktop {
            match desktop_entry(id, c) {
                Some(e) => m.insert(id, e),
                None => m.remove(id),
            }
        } else {
            m.remove(id)
        },
        None => m.remove(id),
    }
}

/// A listing of the entries `m` with limit `limit`: the first `limit`
/// entries in increasing id order, and whether more exist after them.
pub open spec fn listing(m: Map<u64, EntryModel>, limit: u16) -> (Seq<EntryModel>, bool) {
    (id_ordered(m).take(min_count(limit as int, m.dom().len() as int)), m.dom().len() > limit)
}

/// What `gathered` holds is what `operation` needs.
pub open spec fn gathered_for(operation: IndexOperation, gathered: Gathered) -> bool {
    match operation {
        IndexOperation::FullRescan => gathered is Scanned,
        IndexOperation::IncrementalUpdate(_) => gathered is Changed,
    }
}

/// An entry that a desktop file describes is filed under the id of its path.
proof fn lemma_desktop_entry_id(id: u64, content: Seq<char>)
    ensures
        desktop_entry(id, content) matches Some(e) ==> e.id == id,
{
}

/// The entries that the scanned files describe, by id.
fn build_scanned(files: &Vec<DesktopSource>) -> (t: BTreeMap<u64, Entry>)
    ensures
        table_model(t@) == scanned_table(files@),
        keyed_by_id(table_model(t@)),
{
    let mut table: BTreeMap<u64, Entry> = BTreeMap::new();
    assert(table_model(table@) =~= Map::<u64, EntryModel>::empty());
    let mut i: usize = 0;
    while i < files.len()
        invariant
            i <= files@.len(),
            table_model(table@) == scanned_table(files@.take(i as int)),
            keyed_by_id(table_model(table@)),
        decreases files@.len() - i,
    {
        assert(files@.take(i as int + 1).drop_last() =~= files@.take(i as int));
        let f = &files[i];
        match parse_desktop_entry(f.path.as_str(), f.content.as_str()) {
            Some(entry) => {
                let ghost before = table@;
                let id = entry.id;
                table.insert(id, entry);
                assert(table_model(table@) =~= table_model(before).insert(id, table@[id]@));
            },
            None => {},
        }
        i = i + 1;
    }
    assert(files@.take(i as int) =~= files@);
    table
}

/// Applies an incremental update of `path`, with file name `name` and
/// content `content`, to `table`.
fn update_table(
    table: &mut BTreeMap<u64, Entry>,
    path: &str,
    name: Option<&str>,
    content: Option<&str>,
)
    requires
        keyed_by_id(table_model(old(table)@)),
    ensures
        table_model(final(table)@) == updated_table(
            table_model(old(table)@),
            path@,
            match name {
                Some(n) => Some(n@),
                None => None,
            },
            match content {
                Some(c) => Some(c@),
                None => None,
            },
        ),
        keyed_by_id(table_model(final(table)@)),
{
    let id = stable_id(path);
    let ghost before = table@;
    let desktop = is_desktop_file_name(name);
    let parsed = match content {
        Some(c) => if desktop {
            parse_desktop_entry(path, c)
        } else {
            None
        },
        None => None,
    };
    match parsed {
        Some(entry) => {
            table.insert(id, entry);
            assert(table_model(table@) =~= table_model(before).insert(id, table@[id]@));
        },
        None => {
            table.remove(&id);
            assert(table_model(table@) =~= table_model(before).remove(id));
        },
    }
}

impl AppIndex {
    /// Where the store lives.
    pub closed spec fn store_path(&self) -> PathBuf {
        self.db_path
    }

    /// The application directories.
    pub closed spec fn dirs(&self) -> Seq<PathBuf> {
        self.app_dirs@
    }

    /// The handle of the index stored at `db_path` over `app_dirs`.
    pub fn from_parts(db_path: PathBuf, app_dirs: Vec<PathBuf>) -> (index: Self)
        ensures
            index.store_path() == db_path,
            index.dirs() == app_dirs@,
    {
        AppIndex { db_path, app_dirs }
    }

    /// Database file path.
    pub fn db_path(&self) -> (p: &PathBuf)
        ensures
            *p == self.store_path(),
    {
        &self.db_path
    }

    /// Application directories that a full rescan walks.
    pub fn app_dirs(&self) -> (d: &Vec<PathBuf>)
        ensures
            d@ == self.dirs(),
    {
        &self.app_dirs
    }

    /// List entries by id order, given the index's store image `store`: the
    /// first `limit` entries, and whether more exist after them. The image
    /// is only read: listing writes nothing.
    pub fn list_entries(&self, store: &[u8], limit: u16) -> (r: Result<(Vec<Entry>, bool), IndexError>)
        ensures
            match read_store(store@) {
                StoreRead::Loaded(m) => r matches Ok((items, more)) && (models(items@), more)
                    == listing(m, limit),
                StoreRead::Truncated => r matches Err(IndexError::Io(_)),
                StoreRead::FrameTruncated => r matches Err(IndexError::Codec(CodecError::Io(_))),
                StoreRead::Failed(e) => r == Err::<(Vec<Entry>, bool), IndexError>(e),
            },
    {
        let entries = decode_store(store)?;
        let requested = limit as usize;
        let items = first_entries(&entries, requested);
        proof {
            lemma_u64_table_len(&entries);
        }
        assert(table_model(entries@).dom() =~= entries@.dom());
        let more = entries.len() > requested;
        Ok((items, more))
    }

    /// Perform an idempotent index operation: the store image that results
    /// from `operation`, given what was `gathered` for it and the time `now`.
    /// A full rescan keeps nothing of the old store; an incremental update
    /// reads the old store and changes one id.
    pub fn apply(&self, operation: &IndexOperation, gathered: Gathered, now: u64) -> (r: Result<
        Vec<u8>,
        IndexError,
    >)
        requires
            gathered_for(*operation, gathered),
        ensures
            match gathered {
                Gathered::Scanned(files) => image_result(
                    store_image(scanned_table(files@), now),
                    r,
                ),
                Gathered::Changed { store, path, file_name, content } => match read_store(
                    store@,
                ) {
                    StoreRead::Loaded(m) => image_result(
                        store_image(updated_table(m, path@, opt_text(file_name), opt_text(content)), now),
                        r,
                    ),
                    StoreRead::Truncated => r matches Err(IndexError::Io(_)),
                    StoreRead::FrameTruncated => r matches Err(
                        IndexError::Codec(CodecError::Io(_)),
                    ),
                    StoreRead::Failed(e) => r == Err::<Vec<u8>, IndexError>(e),
                },
            },
    {
        match gathered {
            Gathered::Scanned(files) => {
                let table = build_scanned(&files);
                encode_store(&table, now)
            },
            Gathered::Changed { store, path, file_name, content } => {
                let mut table = decode_store(store.as_slice())?;
                let n = match &file_name {
                    Some(n) => Some(n.as_str()),
                    None => None,
                };
                let c = match &content {
                    Some(c) => Some(c.as_str()),
                    None => None,
                };
                update_table(&mut table, path.as_str(), n, c);
                encode_store(&table, now)
            },
        }
    }
}

/// Where the piece of a `:`-separated list that starts at `pos` ends.
pub open spec fn piece_end(s: Seq<char>, pos: int) -> int
    decreases s.len() - pos,
{
    if pos >= s.len() || s[pos] == ':' {
        pos
    } else {
        piece_end(s, pos + 1)
    }
}

pub proof fn lemma_piece_end_bounds(s: Seq<char>, pos: int)
    requires
        0 <= pos <= s.len(),
    ensures
        pos <= piece_end(s, pos) <= s.len(),
    decreases s.len() - pos,
{
    if pos < s.len() && s[pos] != ':' {
        lemma_piece_end_bounds(s, pos + 1);
    }
}

/// The non-empty pieces of the `:`-separated list `s` from `pos` on, in order.
pub open spec fn list_pieces(s: Seq<char>, pos: int) -> Seq<Seq<char>>
    decreases s.len() + 1 - pos,
{
    if pos < 0 || pos > s.len() {
        Seq::empty()
    } else {
        let e = piece_end(s, pos);
        proof {
            lemma_piece_end_bounds(s, pos);
        }
        let rest = list_pieces(s, e + 1);
        if e > pos {
            seq![s.subrange(pos, e)] + rest
        } else {
            rest
        }
    }
}

/// The texts of a sequence of strings.
pub open spec fn texts(v: Seq<String>) -> Seq<Seq<char>> {
    v.map_values(|t: String| t@)
}

/// The data directories that an `XDG_DATA_DIRS` value names: its non-empty
/// `:`-separated pieces, in order; when it is unset, `/usr/local/share` and
/// `/usr/share`.
pub fn data_dirs_from(value: Option<&str>) -> (dirs: Vec<String>)
    ensures
        texts(dirs@) == list_pieces(
            match value {
                Some(v) => v@,
                None => "/usr/local/share:/usr/share"@,
            },
            0,
        ),
{
    let text = match value {
        Some(v) => v,
        None => "/usr/local/share:/usr/share",
    };
    let v = chars_of(text);
    let mut dirs: Vec<String> = Vec::new();
    let mut pos: usize = 0;
    assert(texts(dirs@) =~= Seq::<Seq<char>>::empty());
    loop
        invariant_except_break
            list_pieces(v@, 0) == texts(dirs@) + list_pieces(v@, pos as int),
        invariant
            v@ == text@,
            pos <= v@.len(),
        ensures
            list_pieces(v@, 0) == texts(dirs@),
        decreases v@.len() - pos,
    {
        let mut e = pos;
        while e < v.len() && v[e] != ':'
            invariant
                pos <= e <= v@.len(),
                piece_end(v@, pos as int) == piece_end(v@, e as int),
            decreases v@.len() - e,
        {
            e = e + 1;
        }
        assert(piece_end(v@, e as int) == e);
        let ghost before = dirs@;
        if e > pos {
            dirs.push(text_between(text, pos, e));
            assert(texts(dirs@) =~= texts(before) + seq![v@.subrange(pos as int, e as int)]);
        }
        assert(list_pieces(v@, 0) == texts(dirs@) + list_pieces(v@, e + 1));
        if e == v.len() {
            assert(list_pieces(v@, e + 1) =~= Seq::<Seq<char>>::empty());
            assert(texts(dirs@) + list_pieces(v@, e + 1) =~= texts(dirs@));
            break;
        }
        pos = e + 1;
    }
    dirs
}

/// The entries of `items` stored under their ids, in order.
pub open spec fn filed(items: Seq<EntryModel>) -> Map<u64, EntryModel>
    decreases items.len(),
{
    if items.len() == 0 {
        Map::empty()
    } else {
        filed(items.drop_last()).insert(items.last().id, items.last())
    }
}

proof fn lemma_frame_read(s: Seq<u8>, pos: int, e: EntryModel)
    requires
        frame_of(entry_wire(e)) is Ok,
        holds_at(s, pos, frame_of(entry_wire(e))->Ok_0),
    ensures
        frame_read(s, pos) == FrameRead::Got(e, pos + (frame_of(entry_wire(e))->Ok_0).len()),
{
    let f = frame_of(entry_wire(e))->Ok_0;
    let rest = s.subrange(pos, s.len() as int);
    let after = s.subrange(pos + f.len(), s.len() as int);
    assert(rest =~= f + after);
    lemma_frame_payload(entry_wire(e), after);
    lemma_entry_read(payload(rest), 0, e);
}

proof fn lemma_frames_read(s: Seq<u8>, pos: int, items: Seq<EntryModel>, k: nat)
    requires
        k <= items.len(),
        frames(items.take(k as int)) is Ok,
        holds_at(s, pos, frames(items.take(k as int))->Ok_0),
    ensures
        frames_read(s, pos, k) == FramesRead::Done(
            filed(items.take(k as int)),
            pos + (frames(items.take(k as int))->Ok_0).len(),
        ),
    decreases k,
{
    if k == 0 {
        assert(items.take(0) =~= Seq::<EntryModel>::empty());
    } else {
        let front = items.take(k - 1);
        assert(items.take(k as int).drop_last() =~= front);
        assert(items.take(k as int).last() == items[k - 1]);
        let b = frames(front)->Ok_0;
        let f = frame_of(entry_wire(items[k - 1]))->Ok_0;
        lemma_holds_split(s, pos, b, f);
        lemma_frames_read(s, pos, items, (k - 1) as nat);
        lemma_frame_read(s, pos + b.len(), items[k - 1]);
    }
}

proof fn lemma_filed_prefix(m: Map<u64, EntryModel>, items: Seq<EntryModel>, k: nat)
    requires
        in_id_order(m, items),
        k <= items.len(),
    ensures
        filed(items.take(k as int)) == Map::new(
            |id: u64| exists|i: int| 0 <= i < k && #[trigger] items[i].id == id,
            |id: u64| m[id],
        ),
    decreases k,
{
    let target = Map::new(
        |id: u64| exists|i: int| 0 <= i < k && #[trigger] items[i].id == id,
        |id: u64| m[id],
    );
    if k == 0 {
        assert(items.take(0) =~= Seq::<EntryModel>::empty());
        assert(filed(items.take(0)) =~= target);
    } else {
        lemma_filed_prefix(m, items, (k - 1) as nat);
        assert(items.take(k as int).drop_last() =~= items.take(k - 1));
        assert(items.take(k as int).last() == items[k - 1]);
        let before = Map::new(
            |id: u64| exists|i: int| 0 <= i < k - 1 && #[trigger] items[i].id == id,
            |id: u64| m[id],
        );
        assert(m.contains_key(items[k - 1].id));
        assert forall|id: u64| #[trigger] target.contains_key(id) implies before.insert(
            items[k - 1].id,
            items[k - 1],
        ).contains_key(id) by {
            let i = choose|i: int| 0 <= i < k && #[trigger] items[i].id == id;
            if i < k - 1 {
                assert(before.contains_key(id));
            }
        }
        assert(before.insert(items[k - 1].id, items[k - 1]) =~= target);
    }
}

/// Reading back the store image of a set of entries gives those entries:
/// the header counts them, and each frame holds one, in id order.
pub proof fn law_store_round_trip(m: Map<u64, EntryModel>, now: u64)
    requires
        m.dom().finite(),
        m.dom().len() <= u64::MAX,
        keyed_by_id(m),
        store_image(m, now) is Ok,
    ensures
        read_store(store_image(m, now)->Ok_0) == StoreRead::Loaded(m),
{
    lemma_id_order_exists(m);
    let items = id_ordered(m);
    let body = frames(items)->Ok_0;
    let header = store_header(now, m.dom().len() as u64);
    let s = header + body;
    assert(s.subrange(0, 8) =~= store_magic());
    assert(s.subrange(8, 16) =~= u64_le(SCHEMA_VERSION));
    assert(s.subrange(24, 32) =~= u64_le(m.dom().len() as u64));
    lemma_u64_round_trip(SCHEMA_VERSION);
    lemma_u64_round_trip(m.dom().len() as u64);
    assert(items.take(items.len() as int) =~= items);
    assert(s.subrange(32, 32 + body.len() as int) =~= body);
    lemma_frames_read(s, 32, items, items.len());
    lemma_filed_prefix(m, items, items.len());
    assert(filed(items) =~= m);
}

/// Listing only reads the store, and what it lists of a store image that
/// the index wrote is that image's entries: it reads back as the entries it
/// was written from, and the listing holds the `limit` smallest ids among
/// them (all of them when there are fewer), each entry as stored, in
/// increasing id order, with `more` exactly when some entry is left out.
pub proof fn law_listing_after_write(m: Map<u64, EntryModel>, now: u64, limit: u16)
    requires
        m.dom().finite(),
        m.dom().len() <= u64::MAX,
        keyed_by_id(m),
        store_image(m, now) is Ok,
    ensures
        read_store(store_image(m, now)->Ok_0) == StoreRead::Loaded(m),
        lists_first(m, listing(m, limit).0, min_count(limit as int, m.dom().len() as int)),
        listing(m, limit).1 == (m.dom().len() > limit),
{
    let n = min_count(limit as int, m.dom().len() as int);
    assert(lists_first(m, id_ordered(m).take(n), n)) by {
        lemma_id_order_exists(m);
        lemma_id_ordered_prefix(m, n);
    }
    law_store_round_trip(m, now);
}

/// The entries a rescan finds are finite, filed under their ids, and no more
/// than the files scanned.
pub proof fn lemma_scanned_table(files: Seq<DesktopSource>)
    ensures
        scanned_table(files).dom().finite(),
        keyed_by_id(scanned_table(files)),
        scanned_table(files).dom().len() <= files.len(),
    decreases files.len(),
{
    if files.len() > 0 {
        lemma_scanned_table(files.drop_last());
        let f = files.last();
        lemma_desktop_entry_id(fnv1a(encode_utf8(f.path@)), f.content@);
    }
}

/// Reading back the store image that a full rescan produces gives the
/// entries the scanned files describe.
pub proof fn law_rescan_round_trip(files: Seq<DesktopSource>, now: u64)
    requires
        files.len() <= usize::MAX,
        store_image(scanned_table(files), now) is Ok,
    ensures
        read_store(store_image(scanned_table(files), now)->Ok_0) == StoreRead::Loaded(
            scanned_table(files),
        ),
{
    lemma_scanned_table(files);
    law_store_round_trip(scanned_table(files), now);
}

/// Reading back the store image that an incremental update produces gives
/// the updated entries.
pub proof fn law_update_round_trip(
    store: Seq<u8>,
    path: Seq<char>,
    name: Option<Seq<char>>,
    content: Option<Seq<char>>,
    now: u64,
)
    requires
        store.len() <= usize::MAX,
        read_store(store) is Loaded,
        store_image(updated_table(read_store(store)->Loaded_0, path, name, content), now) is Ok,
    ensures
        read_store(
            store_image(updated_table(read_store(store)->Loaded_0, path, name, content), now)->Ok_0,
        ) == StoreRead::Loaded(updated_table(read_store(store)->Loaded_0, path, name, content)),
{
    let m = read_store(store)->Loaded_0;
    lemma_read_store_table(store);
    let id = fnv1a(encode_utf8(path));
    match content {
        Some(c) => lemma_desktop_entry_id(id, c),
        None => {},
    }
    let u = updated_table(m, path, name, content);
    assert(u.dom().finite());
    assert(u.dom().len() <= m.dom().len() + 1);
    law_store_round_trip(u, now);
}

/// The entries that a store image holds are finite, filed under their ids,
/// and fewer than its bytes.
pub proof fn lemma_read_store_table(s: Seq<u8>)
    requires
        s.len() <= usize::MAX,
        read_store(s) is Loaded,
    ensures
        (read_store(s)->Loaded_0).dom().finite(),
        keyed_by_id(read_store(s)->Loaded_0),
        (read_store(s)->Loaded_0).dom().len() + 1 < u64::MAX,
{
    let n = u64_of(s.subrange(24, 32)) as nat;
    lemma_frames_read_table(s, 32, n);
}

/// Frames read one after another hold finitely many entries, filed under
/// their ids, no more than the frames, each at least 4 bytes long.
proof fn lemma_frames_read_table(s: Seq<u8>, pos: int, n: nat)
    requires
        0 <= pos <= s.len(),
        frames_read(s, pos, n) is Done,
    ensures
        frames_read(s, pos, n)->Done_0.dom().finite(),
        keyed_by_id(frames_read(s, pos, n)->Done_0),
        frames_read(s, pos, n)->Done_0.dom().len() <= n,
        pos + 4 * n <= frames_read(s, pos, n)->Done_1 <= s.len(),
    decreases n,
{
    if n > 0 {
        lemma_frames_read_table(s, pos, (n - 1) as nat);
    }
}

/// Applying the same incremental update twice leaves the entries as applying
/// it once does.
pub proof fn law_update_idempotent(
    m: Map<u64, EntryModel>,
    path: Seq<char>,
    name: Option<Seq<char>>,
    content: Option<Seq<char>>,
)
    ensures
        updated_table(updated_table(m, path, name, content), path, name, content)
            == updated_table(m, path, name, content),
{
    let once = updated_table(m, path, name, content);
    assert(updated_table(once, path, name, content) =~= once);
}

/// Once reading `n` frames fails, so does reading more.
proof fn lemma_frames_error_persists(s: Seq<u8>, pos: int, n: nat, m: nat)
    requires
        n <= m,
        !(frames_read(s, pos, n) is Done),
    ensures
        frames_read(s, pos, m) == frames_read(s, pos, n),
    decreases m,
{
    if n < m {
        lemma_frames_error_persists(s, pos, n, (m - 1) as nat);
    }
}

/// An incremental update of `path` changes only the entry under the path's
/// own id: every other id is present after it exactly when it was before,
/// with the same entry.
pub proof fn law_update_touches_only_its_id(
    m: Map<u64, EntryModel>,
    path: Seq<char>,
    name: Option<Seq<char>>,
    content: Option<Seq<char>>,
    k: u64,
)
    requires
        k != fnv1a(encode_utf8(path)),
    ensures
        updated_table(m, path, name, content).contains_key(k) == m.contains_key(k),
        m.contains_key(k) ==> updated_table(m, path, name, content)[k] == m[k],
{
}

/// Under the path's own id, an incremental update leaves the entry that the
/// file now describes when its name marks a desktop file and its text is
/// there, and no entry otherwise.
pub proof fn law_update_sets_its_id(
    m: Map<u64, EntryModel>,
    path: Seq<char>,
    name: Option<Seq<char>>,
    content: Option<Seq<char>>,
)
    ensures
        ({
            let id = fnv1a(encode_utf8(path));
            let u = updated_table(m, path, name, content);
            if (name matches Some(n) && desktop_file_name(n)) && (content matches Some(c)
                && desktop_entry(id, c) is Some) {
                u.contains_key(id) && u[id] == desktop_entry(id, content->Some_0)->Some_0
            } else {
                !u.contains_key(id)
            }
        }),
{
}

/// The id a scanned file's entry goes under: that of its path.
pub open spec fn source_id(f: DesktopSource) -> u64 {
    fnv1a(encode_utf8(f.path@))
}

/// A full rescan keeps every file that describes an entry, whatever the
/// other files describe: the entry of file `i` is in the result under its
/// path's id unless a later file with the same id describes an entry too.
pub proof fn law_rescan_keeps_every_entry(files: Seq<DesktopSource>, i: int)
    requires
        0 <= i < files.len(),
        desktop_entry(source_id(files[i]), files[i].content@) is Some,
        forall|j: int|
            i < j < files.len() && #[trigger] desktop_entry(source_id(files[j]), files[j].content@)
                is Some ==> source_id(files[j]) != source_id(files[i]),
    ensures
        scanned_table(files).contains_key(source_id(files[i])),
        scanned_table(files)[source_id(files[i])] == desktop_entry(
            source_id(files[i]),
            files[i].content@,
        )->Some_0,
    decreases files.len(),
{
    let id = source_id(files[i]);
    lemma_desktop_entry_id(id, files[i].content@);
    if i < files.len() - 1 {
        let front = files.drop_last();
        assert forall|j: int|
            i < j < front.len() && #[trigger] desktop_entry(source_id(front[j]), front[j].content@)
                is Some implies source_id(front[j]) != source_id(front[i]) by {
            assert(front[j] == files[j]);
            assert(desktop_entry(source_id(files[j]), files[j].content@) is Some);
        }
        assert(front[i] == files[i]);
        law_rescan_keeps_every_entry(front, i);
        let f = files.last();
        assert(f == files[files.len() - 1]);
        lemma_desktop_entry_id(source_id(f), f.content@);
        if desktop_entry(source_id(f), f.content@) is Some {
            assert(desktop_entry(source_id(files[files.len() - 1]), files[files.len() - 1].content@)
                is Some);
        }
    }
}

/// A full rescan holds nothing but what the files describe: each entry in
/// it is the entry that some scanned file describes, under that file's id.
pub proof fn law_rescan_holds_only_described(files: Seq<DesktopSource>, k: u64)
    requires
        scanned_table(files).contains_key(k),
    ensures
        exists|i: int|
            0 <= i < files.len() && source_id(#[trigger] files[i]) == k && desktop_entry(
                k,
                files[i].content@,
            ) == Some(scanned_table(files)[k]),
    decreases files.len(),
{
    let front = files.drop_last();
    let f = files.last();
    lemma_desktop_entry_id(source_id(f), f.content@);
    if desktop_entry(source_id(f), f.content@) matches Some(e) && e.id == k {
        let i = files.len() - 1;
        assert(files[i] == f);
    } else {
        law_rescan_holds_only_described(front, k);
        let i = choose|i: int|
            0 <= i < front.len() && source_id(#[trigger] front[i]) == k && desktop_entry(
                k,
                front[i].content@,
            ) == Some(scanned_table(front)[k]);
        assert(files[i] == front[i]);
    }
}

/// A store image starts with the bytes `SRIDX001`, then the schema version
/// 1, the time of writing and the number of entries, each as a
/// little-endian `u64`.
pub proof fn law_store_header(m: Map<u64, EntryModel>, now: u64)
    requires
        store_image(m, now) is Ok,
    ensures
        ({
            let b = store_image(m, now)->Ok_0;
            &&& b.len() >= 32
            &&& b.take(8) == seq![0x53u8, 0x52u8, 0x49u8, 0x44u8, 0x58u8, 0x30u8, 0x30u8, 0x31u8]
            &&& b.subrange(8, 16) == u64_le(1)
            &&& b.subrange(16, 24) == u64_le(now)
            &&& b.subrange(24, 32) == u64_le(m.dom().len() as u64)
        }),
{
    let b = store_image(m, now)->Ok_0;
    let body = frames(id_ordered(m))->Ok_0;
    assert(b == store_header(now, m.dom().len() as u64) + body);
    assert(b.take(8) =~= store_magic());
    assert(b.subrange(8, 16) =~= u64_le(SCHEMA_VERSION));
    assert(b.subrange(16, 24) =~= u64_le(now));
    assert(b.subrange(24, 32) =~= u64_le(m.dom().len() as u64));
}

/// A run without `:` does not end a piece.
proof fn lemma_piece_end_run(s: Seq<char>, p: int, q: int)
    requires
        0 <= p <= q <= s.len(),
        forall|i: int| p <= i < q ==> s[i] != ':',
    ensures
        piece_end(s, p) == piece_end(s, q),
    decreases q - p,
{
    if p < q {
        lemma_piece_end_run(s, p + 1, q);
    }
}

/// Where a piece ends in `x + y`, past `x`, is where it ends in `y`, moved by
/// the length of `x`.
proof fn lemma_piece_end_shift(x: Seq<char>, y: Seq<char>, p: int)
    requires
        0 <= p <= y.len(),
    ensures
        piece_end(x + y, x.len() + p) == x.len() + piece_end(y, p),
    decreases y.len() - p,
{
    if p < y.len() {
        assert((x + y)[x.len() + p] == y[p]);
        if y[p] != ':' {
            lemma_piece_end_shift(x, y, p + 1);
        }
    }
}

/// The pieces of `x + y` from a position past `x` are those of `y`.
proof fn lemma_list_pieces_shift(x: Seq<char>, y: Seq<char>, p: int)
    requires
        0 <= p <= y.len() + 1,
    ensures
        list_pieces(x + y, x.len() + p) == list_pieces(y, p),
    decreases y.len() + 1 - p,
{
    if p <= y.len() {
        lemma_piece_end_shift(x, y, p);
        lemma_piece_end_bounds(y, p);
        let e = piece_end(y, p);
        assert((x + y).subrange(x.len() + p, x.len() + e) =~= y.subrange(p, e));
        lemma_list_pieces_shift(x, y, e + 1);
    }
}

/// A `:`-separated list splits at every `:` and drops empty pieces: a text
/// without `:` is one piece (none when it is empty), and a piece followed by
/// `:` and more text comes before the pieces of that text.
pub proof fn law_list_pieces_split(a: Seq<char>, rest: Seq<char>)
    requires
        forall|i: int| 0 <= i < a.len() ==> a[i] != ':',
    ensures
        list_pieces(a, 0) == (if a.len() > 0 { seq![a] } else { Seq::empty() }),
        list_pieces(a + seq![':'] + rest, 0) == (if a.len() > 0 {
            seq![a]
        } else {
            Seq::empty()
        }) + list_pieces(rest, 0),
{
    lemma_piece_end_run(a, 0, a.len() as int);
    assert(a.subrange(0, a.len() as int) =~= a);
    assert(list_pieces(a, a.len() as int + 1) == Seq::<Seq<char>>::empty());
    if a.len() == 0 {
        assert(Seq::<Seq<char>>::empty() + Seq::<Seq<char>>::empty() =~= Seq::<Seq<char>>::empty());
    }
    let head = a + seq![':'];
    let s = head + rest;
    assert forall|i: int| 0 <= i < a.len() implies s[i] != ':' by {
        assert(s[i] == a[i]);
    }
    lemma_piece_end_run(s, 0, a.len() as int);
    assert(s[a.len() as int] == ':');
    assert(s.subrange(0, a.len() as int) =~= a);
    lemma_list_pieces_shift(head, rest, 0);
    if a.len() == 0 {
        assert(Seq::<Seq<char>>::empty() + list_pieces(rest, 0) =~= list_pieces(rest, 0));
    }
}

} // verus!

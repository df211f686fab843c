//! The write-ahead log: entry checksums, the JSON line format, sequence
//! numbering, segment rotation, replay decisions, value-store paths and the
//! lock-file protocol. Reading and writing files is left to the caller; every
//! decision about what to write, where, and what a read means is made here.
//!
//! A log entry is one JSON line. Its checksum is the CRC32 of the compact JSON
//! object (keys in sorted order) holding every field but the checksum itself,
//! written as `crc32:` followed by eight lower-case hex digits.

use vstd::prelude::*;
use vstd::string::*;
use vstd::utf8::*;
use crate::error::{DeltaError, DeltaResult};
use crate::numfmt::{decimal, hex_fixed, hex8, push_decimal, push_signed_decimal, signed_decimal, zero_pad, zero_padded};
use crate::strings::{chars_of, char_vec_eq, ends_with, ends_with_chars, is_white, sort_strings, str_eq, trim_chars, trim_end_chars, trim_start_chars, trimmed_chars, views, chars_leq};

verus! {

/// Current WAL format version.
pub const WAL_VERSION: u32 = 1;

/// Maximum WAL segment size before rotation (10 MiB).
pub const MAX_SEGMENT_SIZE: u64 = 10485760;

// ---------------------------------------------------------------------------
// Outside functions
// ---------------------------------------------------------------------------

/// The compact JSON text of a JSON string holding `s` (quotes and escapes included).
pub uninterp spec fn json_string_of(s: Seq<char>) -> Seq<char>;

/// Renders `s` as a JSON string value with `serde_json` (`Value::String(..).to_string()`).
/// The text is claimed to depend on `s` alone; its escaping rules are left unsaid.
#[verifier::external_body]
fn json_string(s: &str) -> (r: String)
    ensures
        r@ == json_string_of(s@),
{
    serde_json::Value::String(s.to_string()).to_string()
}

/// The RFC 3339 text that `chrono` writes for the UTC instant `nanos` nanoseconds
/// after the Unix epoch.
pub uninterp spec fn rfc3339_of(nanos: i64) -> Seq<char>;

/// `DateTime::<Utc>::from_timestamp_nanos(nanos).to_rfc3339_opts(SecondsFormat::AutoSi, true)`:
/// the text `chrono`'s `Serialize` writes for that instant. It depends on `nanos` alone
/// (`from_timestamp_nanos` never fails); its shape is left unsaid.
#[verifier::external_body]
fn rfc3339(nanos: i64) -> (r: String)
    ensures
        r@ == rfc3339_of(nanos),
{
    chrono::DateTime::<chrono::Utc>::from_timestamp_nanos(nanos).to_rfc3339_opts(chrono::SecondsFormat::AutoSi, true)
}

/// The CRC-32 (IEEE) checksum of a byte sequence.
pub uninterp spec fn crc32_of(data: Seq<u8>) -> u32;

/// `crc32fast::hash`: the CRC-32 of `data`, a function of the bytes alone.
#[verifier::external_body]
fn crc32(data: &[u8]) -> (r: u32)
    ensures
        r == crc32_of(data@),
{
    crc32fast::hash(data)
}

// ---------------------------------------------------------------------------
// Metadata and entries
// ---------------------------------------------------------------------------

/// Metadata for the WAL.
#[derive(Debug, Clone, Copy, PartialEq, Eq, Structural)]
pub struct WalMetadata {
    /// Last sequence number assigned.
    pub last_seq: u64,
    /// Current segment number.
    pub current_segment: u32,
}

impl Default for WalMetadata {
    fn default() -> (r: Self)
        ensures
            r.last_seq == 0,
            r.current_segment == 1,
    {
        WalMetadata { last_seq: 0, current_segment: 1 }
    }
}

/// A single entry in the write-ahead log.
#[derive(Debug, Clone)]
pub struct LogEntry {
    /// WAL format version.
    pub version: u32,
    /// Operation type: `"put"` or `"delete"`.
    pub op: String,
    /// Namespace.
    pub ns: String,
    /// Key within the namespace.
    pub key: String,
    /// Content hash of the value (its distinction ID).
    pub value_hash: String,
    /// Hash of the previous version, for the causal chain.
    pub prev_hash: Option<String>,
    /// Time of the write, in nanoseconds after the Unix epoch (UTC).
    pub timestamp_nanos: i64,
    /// Monotonic sequence number.
    pub seq: u64,
    /// The value itself as compact JSON text, when stored inline.
    pub value: Option<String>,
    /// `crc32:` and eight hex digits over the other fields.
    pub checksum: String,
}

/// One write to log: where it goes and what version it records.
#[derive(Debug, Clone)]
pub struct WriteRecord {
    /// Namespace.
    pub ns: String,
    /// Key within the namespace.
    pub key: String,
    /// Content hash of the value.
    pub value_hash: String,
    /// Hash of the previous version.
    pub prev_hash: Option<String>,
    /// Time of the write, in nanoseconds after the Unix epoch (UTC).
    pub timestamp_nanos: i64,
}

/// `null`, or the JSON string holding `o`'s text.
pub open spec fn opt_json_string(o: Option<String>) -> Seq<char> {
    match o {
        Some(s) => json_string_of(s@),
        None => "null"@,
    }
}

/// `null`, or `o`'s text as it stands (it is JSON already).
pub open spec fn raw_json(o: Option<String>) -> Seq<char> {
    match o {
        Some(s) => s@,
        None => "null"@,
    }
}

/// The JSON object the checksum covers: every field but the checksum, keys sorted.
pub open spec fn checksum_payload(e: LogEntry) -> Seq<char> {
    "{\"key\":"@ + json_string_of(e.key@) + ",\"ns\":"@ + json_string_of(e.ns@) + ",\"op\":"@
        + json_string_of(e.op@) + ",\"prev_hash\":"@ + opt_json_string(e.prev_hash) + ",\"seq\":"@
        + decimal(e.seq as nat) + ",\"timestamp\":"@ + json_string_of(rfc3339_of(e.timestamp_nanos))
        + ",\"value\":"@ + raw_json(e.value) + ",\"value_hash\":"@ + json_string_of(e.value_hash@)
        + ",\"version\":"@ + decimal(e.version as nat) + "}"@
}

/// `crc32:` and the eight hex digits of the CRC-32 of `data`'s UTF-8 bytes.
pub open spec fn checksum_text(data: Seq<char>) -> Seq<char> {
    "crc32:"@ + hex_fixed(crc32_of(encode_utf8(data)) as nat, 8)
}

/// Whether an entry's stored checksum matches its other fields.
pub open spec fn checksum_valid(e: LogEntry) -> bool {
    e.checksum@ == checksum_text(checksum_payload(e))
}

/// The JSON line an entry is stored as: fields in declaration order, `value` left
/// out when absent.
pub open spec fn line_text(e: LogEntry) -> Seq<char> {
    "{\"version\":"@ + decimal(e.version as nat) + ",\"op\":"@ + json_string_of(e.op@) + ",\"ns\":"@
        + json_string_of(e.ns@) + ",\"key\":"@ + json_string_of(e.key@) + ",\"value_hash\":"@
        + json_string_of(e.value_hash@) + ",\"prev_hash\":"@ + opt_json_string(e.prev_hash)
        + ",\"timestamp\":"@ + json_string_of(rfc3339_of(e.timestamp_nanos)) + ",\"seq\":"@
        + decimal(e.seq as nat) + value_field(e.value) + ",\"checksum\":"@ + json_string_of(e.checksum@) + "}"@
}

/// The `"value"` member of a stored line: absent when there is no inline value.
pub open spec fn value_field(o: Option<String>) -> Seq<char> {
    match o {
        Some(v) => ",\"value\":"@ + v@,
        None => Seq::empty(),
    }
}

/// The `put` entry for `w` with sequence number `seq`, before its checksum is known.
pub open spec fn put_entry_fields(e: LogEntry, w: WriteRecord, seq: u64) -> bool {
    &&& e.version == WAL_VERSION
    &&& e.op@ == "put"@
    &&& e.ns@ == w.ns@
    &&& e.key@ == w.key@
    &&& e.value_hash@ == w.value_hash@
    &&& opt_view(e.prev_hash) == opt_view(w.prev_hash)
    &&& e.timestamp_nanos == w.timestamp_nanos
    &&& e.seq == seq
    &&& e.value is None
}

/// The text of an optional string.
pub open spec fn opt_view(o: Option<String>) -> Option<Seq<char>> {
    match o {
        Some(s) => Some(s@),
        None => None,
    }
}

fn clone_opt(o: &Option<String>) -> (r: Option<String>)
    ensures
        opt_view(r) == opt_view(*o),
{
    match o {
        Some(s) => Some(s.clone()),
        None => None,
    }
}

fn append_opt_json_string(out: &mut String, o: &Option<String>)
    ensures
        final(out)@ == old(out)@ + opt_json_string(*o),
{
    match o {
        Some(s) => {
            let q = json_string(s.as_str());
            out.append(q.as_str());
        },
        None => {
            out.append("null");
        },
    }
}

/// The text the checksum of `e` covers.
pub fn checksum_payload_text(e: &LogEntry) -> (r: String)
    ensures
        r@ == checksum_payload(*e),
{
    let mut out = String::from_str("{\"key\":");
    out.append(json_string(e.key.as_str()).as_str());
    out.append(",\"ns\":");
    out.append(json_string(e.ns.as_str()).as_str());
    out.append(",\"op\":");
    out.append(json_string(e.op.as_str()).as_str());
    out.append(",\"prev_hash\":");
    append_opt_json_string(&mut out, &e.prev_hash);
    out.append(",\"seq\":");
    push_decimal(&mut out, e.seq);
    out.append(",\"timestamp\":");
    out.append(json_string(rfc3339(e.timestamp_nanos).as_str()).as_str());
    out.append(",\"value\":");
    match &e.value {
        Some(v) => {
            out.append(v.as_str());
        },
        None => {
            out.append("null");
        },
    }
    out.append(",\"value_hash\":");
    out.append(json_string(e.value_hash.as_str()).as_str());
    out.append(",\"version\":");
    push_decimal(&mut out, e.version as u64);
    out.append("}");
    out
}

/// Calculate the CRC32 checksum text of `data`: `crc32:` and eight lower-case hex digits.
pub fn calculate_checksum(data: &str) -> (r: String)
    ensures
        r@ == checksum_text(data@),
{
    let crc = crc32(data.as_bytes());
    let mut out = String::from_str("crc32:");
    out.append(hex8(crc).as_str());
    out
}

/// Verify an entry's checksum against its other fields.
pub fn verify_checksum(entry: &LogEntry) -> (r: bool)
    ensures
        r == checksum_valid(*entry),
{
    let payload = checksum_payload_text(entry);
    let expected = calculate_checksum(payload.as_str());
    entry.checksum == expected
}

/// The `put` entry that records `w` under sequence number `seq`, checksum included.
pub fn new_put_entry(w: &WriteRecord, seq: u64) -> (e: LogEntry)
    ensures
        put_entry_fields(e, *w, seq),
        checksum_valid(e),
{
    let mut e = LogEntry {
        version: WAL_VERSION,
        op: String::from_str("put"),
        ns: w.ns.clone(),
        key: w.key.clone(),
        value_hash: w.value_hash.clone(),
        prev_hash: clone_opt(&w.prev_hash),
        timestamp_nanos: w.timestamp_nanos,
        seq,
        value: None,
        checksum: String::new(),
    };
    let payload = checksum_payload_text(&e);
    e.checksum = calculate_checksum(payload.as_str());
    proof {
        assert(checksum_payload(e) == payload@);
    }
    e
}

/// The JSON line `entry` is stored as (without the newline).
pub fn encode_line(e: &LogEntry) -> (r: String)
    ensures
        r@ == line_text(*e),
{
    let mut out = String::from_str("{\"version\":");
    push_decimal(&mut out, e.version as u64);
    out.append(",\"op\":");
    out.append(json_string(e.op.as_str()).as_str());
    out.append(",\"ns\":");
    out.append(json_string(e.ns.as_str()).as_str());
    out.append(",\"key\":");
    out.append(json_string(e.key.as_str()).as_str());
    out.append(",\"value_hash\":");
    out.append(json_string(e.value_hash.as_str()).as_str());
    out.append(",\"prev_hash\":");
    append_opt_json_string(&mut out, &e.prev_hash);
    out.append(",\"timestamp\":");
    out.append(json_string(rfc3339(e.timestamp_nanos).as_str()).as_str());
    out.append(",\"seq\":");
    push_decimal(&mut out, e.seq);
    let ghost before_value = out@;
    match &e.value {
        Some(v) => {
            out.append(",\"value\":");
            out.append(v.as_str());
        },
        None => {},
    }
    assert(out@ =~= before_value + value_field(e.value));
    out.append(",\"checksum\":");
    out.append(json_string(e.checksum.as_str()).as_str());
    out.append("}");
    out
}

// ---------------------------------------------------------------------------
// Appending
// ---------------------------------------------------------------------------

/// The UTF-8 length of a line plus its newline.
pub open spec fn line_cost(line: Seq<char>) -> int {
    encode_utf8(line).len() + 1int
}

/// The bytes a batch of lines adds to a segment, newlines included.
pub open spec fn batch_bytes(lines: Seq<Seq<char>>) -> int
    decreases lines.len(),
{
    if lines.len() == 0 {
        0
    } else {
        batch_bytes(lines.drop_last()) + line_cost(lines.last())
    }
}

/// The file name of segment `n`: six digits, zero padded, then `.wal`.
pub open spec fn segment_name_text(n: u32) -> Seq<char> {
    zero_pad(decimal(n as nat), 6) + ".wal"@
}

/// The file name of segment `n` (`{:06}.wal`).
pub fn segment_file_name(n: u32) -> (r: String)
    ensures
        r@ == segment_name_text(n),
{
    let mut out = zero_padded(n as u64, 6);
    out.append(".wal");
    out
}

/// What a batch append writes and the metadata it leaves.
#[derive(Debug)]
pub struct BatchPlan {
    /// The entries, in the order of the writes.
    pub entries: Vec<LogEntry>,
    /// Their JSON lines, one per entry.
    pub lines: Vec<String>,
    /// Whether the batch starts a new segment.
    pub rotated: bool,
    /// The metadata after the batch.
    pub metadata: WalMetadata,
}

/// Whether a batch of `lines` rotates the log: the current segment exists (with
/// `segment_len` bytes) and would grow past the limit.
pub open spec fn batch_rotates(segment_len: Option<u64>, lines: Seq<Seq<char>>) -> bool {
    match segment_len {
        Some(n) => n + batch_bytes(lines) > MAX_SEGMENT_SIZE,
        None => false,
    }
}

/// The entries and lines of a batch of writes, sequence numbers counting on from
/// `metadata.last_seq`, and the segment they go to: the current one, or the next
/// when the current segment (of `segment_len` bytes, if it exists) would grow past
/// `MAX_SEGMENT_SIZE`.
pub fn plan_batch(metadata: WalMetadata, writes: &Vec<WriteRecord>, segment_len: Option<u64>) -> (p: BatchPlan)
    requires
        metadata.last_seq + writes@.len() <= u64::MAX,
        metadata.current_segment < u32::MAX || !(segment_len is Some),
    ensures
        p.entries@.len() == writes@.len(),
        p.lines@.len() == writes@.len(),
        forall|i: int| 0 <= i < writes@.len() ==> {
            &&& put_entry_fields(#[trigger] p.entries@[i], writes@[i], (metadata.last_seq + i + 1) as u64)
            &&& checksum_valid(p.entries@[i])
            &&& p.lines@[i]@ == line_text(p.entries@[i])
        },
        p.rotated == batch_rotates(segment_len, views(p.lines@)),
        p.metadata.last_seq == metadata.last_seq + writes@.len(),
        p.metadata.current_segment == (if p.rotated { metadata.current_segment + 1 } else { metadata.current_segment as int }),
{
    let mut entries: Vec<LogEntry> = Vec::new();
    let mut lines: Vec<String> = Vec::new();
    let mut seq = metadata.last_seq;
    let mut bytes: u64 = 0;
    let mut i: usize = 0;
    while i < writes.len()
        invariant
            metadata.last_seq + writes@.len() <= u64::MAX,
            i <= writes@.len(),
            seq == metadata.last_seq + i,
            entries@.len() == i,
            lines@.len() == i,
            forall|j: int| 0 <= j < i ==> {
                &&& put_entry_fields(#[trigger] entries@[j], writes@[j], (metadata.last_seq + j + 1) as u64)
                &&& checksum_valid(entries@[j])
                &&& lines@[j]@ == line_text(entries@[j])
            },
            bytes == (if batch_bytes(views(lines@)) > MAX_SEGMENT_SIZE + 1 { MAX_SEGMENT_SIZE + 1 } else { batch_bytes(views(lines@)) }),
        decreases writes@.len() - i,
    {
        seq = seq + 1;
        let e = new_put_entry(&writes[i], seq);
        let line = encode_line(&e);
        let line_bytes = line.as_str().as_bytes();
        let cost = line_bytes.len();
        proof {
            assert(views(lines@.push(line)).drop_last() =~= views(lines@));
            assert(views(lines@.push(line)).last() == line@);
        }
        if cost as u64 > MAX_SEGMENT_SIZE || bytes + cost as u64 + 1 > MAX_SEGMENT_SIZE + 1 {
            bytes = MAX_SEGMENT_SIZE + 1;
        } else {
            bytes = bytes + cost as u64 + 1;
        }
        entries.push(e);
        lines.push(line);
        i = i + 1;
    }
    let rotated = match segment_len {
        Some(n) => n > MAX_SEGMENT_SIZE || bytes > MAX_SEGMENT_SIZE - n,
        None => false,
    };
    let current_segment = if rotated { metadata.current_segment + 1 } else { metadata.current_segment };
    BatchPlan { entries, lines, rotated, metadata: WalMetadata { last_seq: seq, current_segment } }
}

/// What a single append writes and the metadata it leaves.
#[derive(Debug)]
pub struct WritePlan {
    /// The entry.
    pub entry: LogEntry,
    /// Its JSON line.
    pub line: String,
    /// Whether the write starts a new segment.
    pub rotated: bool,
    /// The metadata after the write.
    pub metadata: WalMetadata,
}

/// The entry and line of one write with the next sequence number, and its segment:
/// the next one when the current segment exists and already holds more than
/// `MAX_SEGMENT_SIZE` bytes.
pub fn plan_write(metadata: WalMetadata, write: &WriteRecord, segment_len: Option<u64>) -> (p: WritePlan)
    requires
        metadata.last_seq < u64::MAX,
        metadata.current_segment < u32::MAX || !(segment_len is Some),
    ensures
        put_entry_fields(p.entry, *write, (metadata.last_seq + 1) as u64),
        checksum_valid(p.entry),
        p.line@ == line_text(p.entry),
        p.rotated == (match segment_len {
            Some(n) => n > MAX_SEGMENT_SIZE,
            None => false,
        }),
        p.metadata.last_seq == metadata.last_seq + 1,
        p.metadata.current_segment == (if p.rotated { metadata.current_segment + 1 } else { metadata.current_segment as int }),
{
    let seq = metadata.last_seq + 1;
    let entry = new_put_entry(write, seq);
    let line = encode_line(&entry);
    let rotated = match segment_len {
        Some(n) => n > MAX_SEGMENT_SIZE,
        None => false,
    };
    let current_segment = if rotated { metadata.current_segment + 1 } else { metadata.current_segment };
    WritePlan { entry, line, rotated, metadata: WalMetadata { last_seq: seq, current_segment } }
}

// ---------------------------------------------------------------------------
// Value store
// ---------------------------------------------------------------------------

/// Where a value lives in the content-addressed store: `values/AB/CD...`, the
/// directory named by the first two bytes of the hash and the file by the rest.
/// A hash shorter than four bytes is refused with "Value hash too short".
pub fn value_path_parts(value_hash: &str) -> (r: DeltaResult<(String, String)>)
    requires
        value_hash.len() >= 4 ==> is_char_boundary(value_hash.spec_bytes(), 2),
    ensures
        value_hash.len() < 4 <==> r is Err,
        r is Err ==> (r matches Err(DeltaError::StorageError(m)) && m@ == "Value hash too short"@),
        r matches Ok((dir, file)) ==> encode_utf8(dir@) == value_hash.spec_bytes().subrange(0, 2)
            && encode_utf8(file@) == value_hash.spec_bytes().subrange(2, value_hash.spec_bytes().len() as int),
{
    if value_hash.len() < 4 {
        return Err(DeltaError::StorageError(String::from_str("Value hash too short")));
    }
    let (prefix, suffix) = value_hash.split_at(2);
    Ok((prefix.to_owned(), suffix.to_owned()))
}

// ---------------------------------------------------------------------------
// Replay
// ---------------------------------------------------------------------------

/// What replaying one parsed log entry does.
#[derive(Debug)]
pub enum ReplayAction {
    /// The checksum does not match: the entry is skipped as corrupt.
    Corrupt,
    /// A valid entry that is not a `put`: nothing to do.
    Ignore,
    /// Insert the entry's value (loaded by its hash) under this write ID.
    Put { write_id: String },
}

/// The write ID a replayed `put` gets: the value hash, `_`, and the timestamp in
/// nanoseconds.
pub open spec fn replay_write_id(e: LogEntry) -> Seq<char> {
    e.value_hash@ + "_"@ + signed_decimal(e.timestamp_nanos as int)
}

/// Decide what replaying `entry` does: skip it if its checksum fails, ignore it if
/// it is not a `put`, and otherwise insert its value under `replay_write_id`.
pub fn replay_action(entry: &LogEntry) -> (r: ReplayAction)
    ensures
        !checksum_valid(*entry) <==> r is Corrupt,
        checksum_valid(*entry) && entry.op@ != "put"@ <==> r is Ignore,
        r matches ReplayAction::Put { write_id } ==> checksum_valid(*entry) && entry.op@ == "put"@
            && write_id@ == replay_write_id(*entry),
{
    if !verify_checksum(entry) {
        return ReplayAction::Corrupt;
    }
    if !str_eq(entry.op.as_str(), "put") {
        return ReplayAction::Ignore;
    }
    let mut write_id = entry.value_hash.clone();
    write_id.append("_");
    push_signed_decimal(&mut write_id, entry.timestamp_nanos);
    ReplayAction::Put { write_id }
}

/// Whether a log line holds nothing but white space (such lines are skipped).
pub fn is_blank_line(line: &str) -> (r: bool)
    ensures
        r == (trim_chars(line@).len() == 0),
{
    trimmed_chars(line).len() == 0
}

/// The names in a WAL directory listing that are segments (end in `.wal`).
pub open spec fn segment_names(names: Seq<Seq<char>>) -> Seq<Seq<char>> {
    names.filter(|n: Seq<char>| ends_with_chars(n, ".wal"@))
}

/// The segments of a directory listing in replay order: the names ending in
/// `.wal`, sorted.
pub fn replay_order(names: Vec<String>) -> (r: Vec<String>)
    ensures
        views(r@) == segment_names(views(names@)).sort_by(chars_leq()),
{
    let mut kept: Vec<String> = Vec::new();
    let mut i: usize = 0;
    let ghost pred = |n: Seq<char>| ends_with_chars(n, ".wal"@);
    while i < names.len()
        invariant
            i <= names@.len(),
            views(kept@) == views(names@).take(i as int).filter(pred),
            pred == (|n: Seq<char>| ends_with_chars(n, ".wal"@)),
        decreases names@.len() - i,
    {
        let ghost before = views(kept@);
        proof {
            assert(views(names@).take(i + 1) =~= views(names@).take(i as int).push(names@[i as int]@));
            views(names@).take(i as int).lemma_filter_push(names@[i as int]@, pred);
        }
        if ends_with(names[i].as_str(), ".wal") {
            kept.push(names[i].clone());
            assert(views(kept@) =~= before.push(names@[i as int]@));
        } else {
            assert(views(kept@) =~= before);
        }
        i = i + 1;
    }
    proof {
        assert(views(names@).take(names@.len() as int) =~= views(names@));
    }
    sort_strings(kept)
}

// ---------------------------------------------------------------------------
// Lock file
// ---------------------------------------------------------------------------

/// Lock file contents indicating clean/unclean state.
#[derive(Debug, Clone, Copy, PartialEq, Eq, Structural)]
pub enum LockState {
    /// Database is currently running.
    Running,
    /// Database was shut down cleanly.
    Clean,
    /// Unclean shutdown detected.
    Unclean,
}

/// The text the lock file holds in each state.
pub open spec fn lock_marker_text(s: LockState) -> Seq<char> {
    match s {
        LockState::Running => "RUNNING"@,
        LockState::Clean => "CLEAN"@,
        LockState::Unclean => "UNCLEAN"@,
    }
}

/// The text the lock file is written with for `state`.
pub fn lock_marker(state: LockState) -> (r: &'static str)
    ensures
        r@ == lock_marker_text(state),
{
    match state {
        LockState::Running => "RUNNING",
        LockState::Clean => "CLEAN",
        LockState::Unclean => "UNCLEAN",
    }
}

/// The lock file protocol reads back what it writes: each marker is its own trimmed
/// text, and the three markers differ. So after `RUNNING` is written the lock is
/// refused, after `CLEAN` it is acquired as `Clean`, and after `UNCLEAN` as `Unclean`.
pub proof fn lemma_lock_markers_read_back(s: LockState, t: LockState)
    ensures
        trim_chars(lock_marker_text(s)) == lock_marker_text(s),
        s != t ==> lock_marker_text(s) != lock_marker_text(t),
{
    reveal_strlit("RUNNING");
    reveal_strlit("CLEAN");
    reveal_strlit("UNCLEAN");
    let m = lock_marker_text(s);
    assert(!is_white(m[0]));
    assert(trim_start_chars(m) == m);
    assert(!is_white(m.last()));
    assert(trim_end_chars(m) == m);
    if s != t {
        let n = lock_marker_text(t);
        assert(m.len() != n.len() || m[0] != n[0]);
    }
}

/// The message given when the database is already running.
pub open spec fn already_running_text() -> Seq<char> {
    "Database is already running (lock file exists). If this is incorrect, remove the lock file manually."@
}

/// The outcome of acquiring the lock, given the lock file's contents (`None` when
/// there is no lock file): refused while another process runs (the trimmed contents
/// read `RUNNING`), `Clean` on a fresh start or after a clean shutdown (`CLEAN`), and
/// `Unclean` for anything else. On success the caller writes `RUNNING`.
pub fn lock_outcome(existing: Option<&str>) -> (r: DeltaResult<LockState>)
    ensures
        existing is None ==> (r matches Ok(LockState::Clean)),
        existing matches Some(c) ==> (trim_chars(c@) == "RUNNING"@ <==> r is Err),
        r is Err ==> (r matches Err(DeltaError::StorageError(m)) && m@ == already_running_text()),
        existing matches Some(c) && trim_chars(c@) == "CLEAN"@ ==> (r matches Ok(LockState::Clean)),
        existing matches Some(c) && trim_chars(c@) != "RUNNING"@ && trim_chars(c@) != "CLEAN"@
            ==> (r matches Ok(LockState::Unclean)),
{
    match existing {
        None => Ok(LockState::Clean),
        Some(content) => {
            proof {
                reveal_strlit("RUNNING");
                reveal_strlit("CLEAN");
                assert("CLEAN"@.len() != "RUNNING"@.len());
            }
            let t = trimmed_chars(content);
            let running = chars_of("RUNNING");
            let clean = chars_of("CLEAN");
            if char_vec_eq(&t, &running) {
                Err(
                    DeltaError::StorageError(
                        String::from_str(
                            "Database is already running (lock file exists). If this is incorrect, remove the lock file manually.",
                        ),
                    ),
                )
            } else if char_vec_eq(&t, &clean) {
                Ok(LockState::Clean)
            } else {
                Ok(LockState::Unclean)
            }
        },
    }
}

// ---------------------------------------------------------------------------
// Opening a database
// ---------------------------------------------------------------------------

/// Where `load` takes a database from.
#[derive(Debug, Clone, Copy, PartialEq, Eq, Structural)]
pub enum LoadSource {
    /// Nothing stored yet: start empty.
    Empty,
    /// Replay the write-ahead log.
    Wal,
    /// Read a legacy snapshot file.
    LegacySnapshot,
}

/// Where to load from, given whether the path exists, whether it holds a `wal`
/// directory, and whether it is a file.
pub fn load_source(path_exists: bool, wal_exists: bool, is_file: bool) -> (r: LoadSource)
    ensures
        r == (if !path_exists {
            LoadSource::Empty
        } else if wal_exists {
            LoadSource::Wal
        } else if is_file {
            LoadSource::LegacySnapshot
        } else {
            LoadSource::Empty
        }),
{
    if !path_exists {
        LoadSource::Empty
    } else if wal_exists {
        LoadSource::Wal
    } else if is_file {
        LoadSource::LegacySnapshot
    } else {
        LoadSource::Empty
    }
}

} // verus!

//! The event-log store: an append-only index of observed chat events, a
//! staging area for raw event bodies, and immutable compressed chunks that the
//! compactor drains staged bodies into.
//!
//! The store's behaviour is specified against an abstract view, a sequence of
//! [`LogEntry`] values: one per observed event, carrying its resolved body
//! regardless of whether the body currently sits in staging or inside a chunk.

use vstd::prelude::*;
use crate::error::Error;
use crate::framing::{cobs_of, cobs_encode, extract_slot, frame_seq, is_frame};
use crate::compression::{compress_bytes, decompress_bytes, decompressed};
use crate::ids::MessageId;

verus! {

/// What happened to a message. `Purge` is recorded like `Delete`; it exists so
/// bulk removals read clearly in the audit log.
#[derive(Debug, Clone, Copy, PartialEq, Eq, Structural)]
pub enum LogType {
    Create,
    Edit,
    Delete,
    Purge,
}

/// Kinds that carry a message body.
pub open spec fn has_body_kind(t: LogType) -> bool {
    t == LogType::Create || t == LogType::Edit
}

/// Kinds that close a message's timeline.
pub open spec fn is_terminal_kind(t: LogType) -> bool {
    t == LogType::Delete || t == LogType::Purge
}

/// One row of the event index. `message_index_id` is the dense, monotonically
/// increasing surrogate key (first row has id 1); `message_id` is the chat
/// message's own identifier, shared by every event of one message.
/// `chunk_id` is `None` until the row's body is compacted, then immutable.
#[derive(Debug, Clone, Copy)]
pub struct EventRecord {
    pub message_index_id: u64,
    pub message_id: MessageId,
    pub timestamp: i64,
    pub type_: LogType,
    pub chunk_id: Option<u64>,
}

/// A not-yet-compacted raw event body, keyed by its index row. Exists only for
/// `Create`/`Edit` rows, and only before compaction.
pub struct StagedBody {
    pub message_index_id: u64,
    pub data: Vec<u8>,
}

/// An immutable compressed batch of framed slots covering the contiguous id
/// range `start_message_index_id ..= end_message_index_id`. `slots` records,
/// per id in the range, the raw bytes framed into the blob (empty for ids that
/// had no staged body).
pub struct Chunk {
    pub chunk_id: u64,
    pub start_message_index_id: u64,
    pub end_message_index_id: u64,
    pub data: Vec<u8>,
    pub slots: Ghost<Seq<Seq<u8>>>,
}

/// One event of the store's abstract view: the index row plus its resolved
/// body (`None` for `Delete`/`Purge` rows and for body-less anomalies).
pub ghost struct LogEntry {
    pub message_index_id: u64,
    pub message_id: u64,
    pub timestamp: i64,
    pub type_: LogType,
    pub body: Option<Seq<u8>>,
}

/// A retrieved event: the index row with its body resolved from staging or
/// from a chunk. `message` is `None` for `Delete`/`Purge` rows.
#[derive(Debug)]
pub struct MessageLog {
    pub message_index_id: u64,
    pub message_id: MessageId,
    pub timestamp: i64,
    pub type_: LogType,
    pub message: Option<Vec<u8>>,
}

/// The abstract view of a retrieved event.
pub open spec fn log_view_of(m: MessageLog) -> LogEntry {
    LogEntry {
        message_index_id: m.message_index_id,
        message_id: m.message_id.0,
        timestamp: m.timestamp,
        type_: m.type_,
        body: match m.message {
            Some(v) => Some(v@),
            None => None,
        },
    }
}

/// Counts of rows and bytes on both sides of compaction.
#[derive(Debug, Clone, Copy, PartialEq, Eq, Structural)]
pub struct CompressionState {
    pub uncompressed_messages: u64,
    pub uncompressed_bytes: u64,
    pub compressed_messages: u64,
    pub compressed_bytes: u64,
    pub chunks: u64,
}

/// How many messages' worth of bytes a chunk aims to hold (100 KiB).
pub const MESSAGE_LOG_CHUNK_SIZE: u64 = 1024 * 100;

// ---------------------------------------------------------------------------
// Spec-level helpers over the concrete table contents.
// ---------------------------------------------------------------------------

/// The staged body for `id`, if any.
pub open spec fn staged_lookup(s: Seq<StagedBody>, id: u64) -> Option<Seq<u8>>
    decreases s.len(),
{
    if s.len() == 0 {
        None
    } else if s[0].message_index_id == id {
        Some(s[0].data@)
    } else {
        staged_lookup(s.drop_first(), id)
    }
}

/// Total bytes currently staged.
pub open spec fn staged_bytes_total(s: Seq<StagedBody>) -> int
    decreases s.len(),
{
    if s.len() == 0 {
        0
    } else {
        staged_bytes_total(s.drop_last()) + s.last().data@.len()
    }
}

/// How many index rows have been compacted into some chunk.
pub open spec fn count_chunked(s: Seq<EventRecord>) -> int
    decreases s.len(),
{
    if s.len() == 0 {
        0
    } else {
        count_chunked(s.drop_last()) + if s.last().chunk_id is Some {
            1int
        } else {
            0int
        }
    }
}

/// Total bytes held by chunk blobs.
pub open spec fn chunk_bytes_total(s: Seq<Chunk>) -> int
    decreases s.len(),
{
    if s.len() == 0 {
        0
    } else {
        chunk_bytes_total(s.drop_last()) + s.last().data@.len()
    }
}

/// The slot recorded for `id` when a chunk is built: the staged body if one
/// exists, an empty placeholder otherwise.
pub open spec fn slot_expected(s: Seq<StagedBody>, id: u64) -> Seq<u8> {
    match staged_lookup(s, id) {
        Some(b) => b,
        None => Seq::empty(),
    }
}

/// How many staged rows one compaction pass takes, given the byte budget that
/// is still free: rows are taken greedily, in id order, while they fit.
pub open spec fn chunk_take(s: Seq<StagedBody>, budget: int) -> int
    decreases s.len(),
{
    if s.len() == 0 {
        0
    } else if s[0].data@.len() <= budget {
        1 + chunk_take(s.drop_first(), budget - s[0].data@.len())
    } else {
        0
    }
}

/// The rows one compaction pass takes: the greedy prefix, except that a first
/// row too large for the whole budget is taken alone, to guarantee progress.
pub open spec fn chunk_take_total(s: Seq<StagedBody>, target: int) -> int {
    if chunk_take(s, target) == 0 {
        1
    } else {
        chunk_take(s, target)
    }
}

/// `x` clamped into `u64`.
pub open spec fn sat64(x: int) -> u64 {
    if x > u64::MAX {
        u64::MAX
    } else if x < 0 {
        0u64
    } else {
        x as u64
    }
}

// ---------------------------------------------------------------------------
// The append policy and retrieval order, as functions of the abstract view.
// ---------------------------------------------------------------------------

/// Whether some entry for `message_id` already closes its timeline.
pub open spec fn has_terminal_for(entries: Seq<LogEntry>, message_id: u64) -> bool {
    exists|i: int|
        0 <= i < entries.len() && entries[i].message_id == message_id && is_terminal_kind(
            #[trigger] entries[i].type_,
        )
}

/// Whether some `Create`/`Edit` entry for `message_id` exists.
pub open spec fn has_body_entry_for(entries: Seq<LogEntry>, message_id: u64) -> bool {
    exists|i: int|
        0 <= i < entries.len() && entries[i].message_id == message_id && has_body_kind(
            #[trigger] entries[i].type_,
        )
}

/// The append policy for `Delete`/`Purge`: appending is skipped if a terminal
/// entry already exists (duplicate delete notifications must not create
/// duplicate terminal entries), or if no prior `Create`/`Edit` exists (there
/// is nothing to correlate the delete to).
pub open spec fn append_skipped(entries: Seq<LogEntry>, message_id: u64, t: LogType) -> bool {
    is_terminal_kind(t) && (has_terminal_for(entries, message_id) || !has_body_entry_for(
        entries,
        message_id,
    ))
}

/// The body an appended entry stores: only `Create`/`Edit` store one, and only
/// when a non-empty body was provided (a missing body is an anomaly that is
/// recorded without a body, not a fatal error).
pub open spec fn stored_body(t: LogType, body: Option<Seq<u8>>) -> Option<Seq<u8>> {
    if has_body_kind(t) {
        match body {
            Some(b) => if b.len() == 0 {
                None
            } else {
                Some(b)
            },
            None => None,
        }
    } else {
        None
    }
}

/// The entry one append adds.
pub open spec fn appended_entry(
    entries: Seq<LogEntry>,
    message_id: u64,
    timestamp: i64,
    t: LogType,
    body: Option<Seq<u8>>,
) -> LogEntry {
    LogEntry {
        message_index_id: (entries.len() + 1) as u64,
        message_id,
        timestamp,
        type_: t,
        body: stored_body(t, body),
    }
}

/// How many bytes one append adds to staging.
pub open spec fn staged_growth(
    entries: Seq<LogEntry>,
    message_id: u64,
    t: LogType,
    body: Option<Seq<u8>>,
) -> int {
    if append_skipped(entries, message_id, t) {
        0
    } else {
        match stored_body(t, body) {
            Some(b) => b.len() as int,
            None => 0,
        }
    }
}

/// The abstract effect of one append on the view.
pub open spec fn append_effect(
    entries: Seq<LogEntry>,
    message_id: u64,
    timestamp: i64,
    t: LogType,
    body: Option<Seq<u8>>,
) -> Seq<LogEntry> {
    if append_skipped(entries, message_id, t) {
        entries
    } else {
        entries.push(appended_entry(entries, message_id, timestamp, t, body))
    }
}

/// The entries recorded for one message, in index order.
pub open spec fn entries_for(entries: Seq<LogEntry>, message_id: u64) -> Seq<LogEntry>
    decreases entries.len(),
{
    if entries.len() == 0 {
        Seq::empty()
    } else {
        entries_for(entries.drop_last(), message_id) + (if entries.last().message_id
            == message_id {
            seq![entries.last()]
        } else {
            Seq::<LogEntry>::empty()
        })
    }
}

/// Whether `a` comes no later than `b` in retrieval order: newest timestamp
/// first, ties broken towards the higher (later) index id.
pub open spec fn entry_after(a: LogEntry, b: LogEntry) -> bool {
    a.timestamp > b.timestamp || (a.timestamp == b.timestamp && a.message_index_id
        >= b.message_index_id)
}

/// `e` inserted into an already retrieval-ordered sequence.
pub open spec fn insert_desc(s: Seq<LogEntry>, e: LogEntry) -> Seq<LogEntry>
    decreases s.len(),
{
    if s.len() == 0 {
        seq![e]
    } else if entry_after(e, s[0]) {
        seq![e] + s
    } else {
        seq![s[0]] + insert_desc(s.drop_first(), e)
    }
}

/// The sequence sorted into retrieval order by repeated insertion.
pub open spec fn sort_desc(s: Seq<LogEntry>) -> Seq<LogEntry>
    decreases s.len(),
{
    if s.len() == 0 {
        Seq::empty()
    } else {
        insert_desc(sort_desc(s.drop_last()), s.last())
    }
}

/// What retrieval returns for a message: its entries, newest first.
pub open spec fn get_spec(entries: Seq<LogEntry>, message_id: u64) -> Seq<LogEntry> {
    sort_desc(entries_for(entries, message_id))
}

/// An entry whose body retrieval cannot resolve: a `Create`/`Edit` entry with
/// no body. Finding one is a store-corruption error, never a silent miss.
pub open spec fn has_unresolved_body(entries: Seq<LogEntry>, message_id: u64) -> bool {
    exists|i: int|
        0 <= i < entries.len() && entries[i].message_id == message_id && has_body_kind(
            #[trigger] entries[i].type_,
        ) && entries[i].body is None
}

// ---------------------------------------------------------------------------
// The store.
// ---------------------------------------------------------------------------

/// The three tables, as one plain value so the store can move them in and out
/// wholesale while its type invariant is enforced.
pub struct StoreData {
    pub index: Vec<EventRecord>,
    pub staged: Vec<StagedBody>,
    pub chunks: Vec<Chunk>,
    pub chunk_size_target: u64,
}

/// Well-formedness of one chunk against the framing and compression layers:
/// the blob decompresses to the concatenated frames of its slots, one slot per
/// id in its range.
pub open spec fn chunk_wf(c: Chunk) -> bool {
    &&& c.start_message_index_id >= 1
    &&& c.start_message_index_id <= c.end_message_index_id
    &&& c.slots@.len() == c.end_message_index_id - c.start_message_index_id + 1
    &&& decompressed(c.data@) == Some(frame_seq(c.slots@))
    &&& forall|j: int| 0 <= j < c.slots@.len() ==> is_frame(#[trigger] cobs_of(c.slots@[j]))
}

/// Well-formedness of the whole store.
pub open spec fn store_wf(d: StoreData) -> bool {
    // index ids are dense, starting at 1
    &&& forall|i: int|
        0 <= i < d.index@.len() ==> (#[trigger] d.index@[i].message_index_id) == i + 1
    // staged rows: sorted by id, each id has a Create/Edit row that is not yet
    // chunked, and each staged body is non-empty
    &&& staged_sorted(d.staged@)
    &&& forall|s: int|
        0 <= s < d.staged@.len() ==> 1 <= (#[trigger] d.staged@[s].message_index_id)
            <= d.index@.len()
    &&& forall|s: int|
        0 <= s < d.staged@.len() ==> has_body_kind(
            d.index@[(#[trigger] d.staged@[s].message_index_id) - 1].type_,
        )
    &&& forall|s: int|
        0 <= s < d.staged@.len() ==> d.index@[(#[trigger] d.staged@[s].message_index_id)
            - 1].chunk_id is None
    &&& forall|s: int| 0 <= s < d.staged@.len() ==> (#[trigger] d.staged@[s].data@.len()) > 0
    // chunks: dense ids, well-formed, ordered and disjoint, within the index
    &&& forall|c: int| 0 <= c < d.chunks@.len() ==> (#[trigger] d.chunks@[c].chunk_id) == c + 1
    &&& forall|c: int| 0 <= c < d.chunks@.len() ==> chunk_wf(#[trigger] d.chunks@[c])
    &&& forall|c: int|
        0 <= c < d.chunks@.len() ==> (#[trigger] d.chunks@[c].end_message_index_id)
            <= d.index@.len()
    &&& forall|b: int, c: int|
        0 <= b < c < d.chunks@.len() ==> (#[trigger] d.chunks@[b].end_message_index_id) < (
        #[trigger] d.chunks@[c].start_message_index_id)
    // every staged id lies above every chunk range
    &&& forall|s: int, c: int|
        0 <= s < d.staged@.len() && 0 <= c < d.chunks@.len() ==> (
        #[trigger] d.staged@[s].message_index_id) > (
        #[trigger] d.chunks@[c].end_message_index_id)
    // a row's chunk reference is consistent with the chunk ranges
    &&& forall|i: int, c: int|
        0 <= i < d.index@.len() && 0 <= c < d.chunks@.len() && d.chunks@[c].start_message_index_id
            <= i + 1 <= d.chunks@[c].end_message_index_id ==> (#[trigger] d.index@[i].chunk_id) == Some(
            (#[trigger] d.chunks@[c].chunk_id),
        )
    &&& forall|i: int|
        0 <= i < d.index@.len() ==> ((#[trigger] d.index@[i].chunk_id) matches Some(cid)
            ==> 1 <= cid <= d.chunks@.len() && d.chunks@[cid - 1].start_message_index_id <= i + 1
            <= d.chunks@[cid - 1].end_message_index_id)
}

/// The body of the row at index position `i`, resolved from staging or from
/// its chunk's recorded slots.
pub open spec fn body_at(d: StoreData, i: int) -> Option<Seq<u8>> {
    let r = d.index@[i];
    if !has_body_kind(r.type_) {
        None
    } else {
        match r.chunk_id {
            Some(cid) => {
                let c = d.chunks@[cid - 1];
                let b = c.slots@[r.message_index_id - c.start_message_index_id];
                if b.len() == 0 {
                    None
                } else {
                    Some(b)
                }
            },
            None => staged_lookup(d.staged@, r.message_index_id),
        }
    }
}

/// The abstract entry for index position `i`.
pub open spec fn entry_at(d: StoreData, i: int) -> LogEntry {
    let r = d.index@[i];
    LogEntry {
        message_index_id: r.message_index_id,
        message_id: r.message_id.0,
        timestamp: r.timestamp,
        type_: r.type_,
        body: body_at(d, i),
    }
}

/// The store's abstract view: every recorded event with its resolved body.
pub open spec fn entries_of(d: StoreData) -> Seq<LogEntry> {
    Seq::new(d.index@.len(), |i: int| entry_at(d, i))
}

/// The event-log store. All access in the surrounding system goes through a
/// single dedicated writer; the store itself is a plain value.
pub struct MessageStore {
    data: StoreData,
}

impl MessageStore {
    #[verifier::type_invariant]
    spec fn inv(self) -> bool {
        store_wf(self.data)
    }

    /// The store's abstract view.
    pub closed spec fn entries(self) -> Seq<LogEntry> {
        entries_of(self.data)
    }

    /// Total bytes currently staged.
    pub closed spec fn staged_total(self) -> int {
        staged_bytes_total(self.data.staged@)
    }

    /// Number of staged rows.
    pub closed spec fn staged_count(self) -> int {
        self.data.staged@.len() as int
    }

    /// Number of chunks.
    pub closed spec fn chunk_count(self) -> int {
        self.data.chunks@.len() as int
    }

    /// The fixed target chunk size.
    pub closed spec fn target(self) -> u64 {
        self.data.chunk_size_target
    }

    /// A store with the default target chunk size.
    pub fn new() -> (r: MessageStore)
        ensures
            r.entries() == Seq::<LogEntry>::empty(),
            r.staged_total() == 0,
            r.chunk_count() == 0,
            r.target() == MESSAGE_LOG_CHUNK_SIZE,
    {
        Self::with_chunk_size(MESSAGE_LOG_CHUNK_SIZE)
    }

    /// A store with the given target chunk size.
    pub fn with_chunk_size(target: u64) -> (r: MessageStore)
        ensures
            r.entries() == Seq::<LogEntry>::empty(),
            r.staged_total() == 0,
            r.chunk_count() == 0,
            r.target() == target,
    {
        let r = MessageStore {
            data: StoreData {
                index: Vec::new(),
                staged: Vec::new(),
                chunks: Vec::new(),
                chunk_size_target: target,
            },
        };
        proof {
            assert(r.entries() =~= Seq::<LogEntry>::empty());
        }
        r
    }

    /// Whether a terminal (`Delete`/`Purge`) row exists for `message_id`.
    fn any_terminal(&self, message_id: MessageId) -> (r: bool)
        ensures
            r == has_terminal_for(self.entries(), message_id.0),
    {
        let n = self.data.index.len();
        for i in 0..n
            invariant
                n == self.data.index@.len(),
                n == self.entries().len(),
                forall|j: int| 0 <= j < i ==> #[trigger] self.entries()[j].message_id
                    != message_id.0 || !is_terminal_kind(self.entries()[j].type_),
        {
            let rec = self.data.index[i];
            if rec.message_id.0 == message_id.0 && matches!(rec.type_, LogType::Delete
                | LogType::Purge) {
                proof {
                    assert(self.entries()[i as int].message_id == message_id.0);
                    assert(is_terminal_kind(self.entries()[i as int].type_));
                }
                return true;
            }
        }
        false
    }

    /// Whether a `Create`/`Edit` row exists for `message_id`.
    fn any_body_kind(&self, message_id: MessageId) -> (r: bool)
        ensures
            r == has_body_entry_for(self.entries(), message_id.0),
    {
        let n = self.data.index.len();
        for i in 0..n
            invariant
                n == self.data.index@.len(),
                n == self.entries().len(),
                forall|j: int| 0 <= j < i ==> #[trigger] self.entries()[j].message_id
                    != message_id.0 || !has_body_kind(self.entries()[j].type_),
        {
            let rec = self.data.index[i];
            if rec.message_id.0 == message_id.0 && matches!(rec.type_, LogType::Create
                | LogType::Edit) {
                proof {
                    assert(self.entries()[i as int].message_id == message_id.0);
                    assert(has_body_kind(self.entries()[i as int].type_));
                }
                return true;
            }
        }
        false
    }

    /// Records one observed event.
    ///
    /// `Delete`/`Purge` appends follow the append policy (`append_skipped`):
    /// at most one terminal row per message, and only after some
    /// `Create`/`Edit`. A `Create`/`Edit` append writes the index row and, if
    /// a non-empty body was provided, stages it; a missing body is recorded
    /// without one. Fails only when the id space is exhausted.
    pub fn log(
        &mut self,
        message_id: MessageId,
        timestamp: i64,
        type_: LogType,
        message: Option<Vec<u8>>,
    ) -> (r: Result<(), Error>)
        ensures
            final(self).target() == old(self).target(),
            final(self).chunk_count() == old(self).chunk_count(),
            r matches Err(e) ==> e is Full && *final(self) == *old(self) && !append_skipped(
                old(self).entries(),
                message_id.0,
                type_,
            ) && old(self).entries().len() == u64::MAX,
            !append_skipped(old(self).entries(), message_id.0, type_) && old(
                self,
            ).entries().len() == u64::MAX ==> r is Err,
            r is Ok ==> final(self).entries() == append_effect(
                old(self).entries(),
                message_id.0,
                timestamp,
                type_,
                match message {
                    Some(m) => Some(m@),
                    None => None,
                },
            ),
            r is Ok ==> final(self).staged_total() == old(self).staged_total() + staged_growth(
                old(self).entries(),
                message_id.0,
                type_,
                match message {
                    Some(m) => Some(m@),
                    None => None,
                },
            ),
    {
        proof {
            use_type_invariant(&*self);
        }
        let ghost pre = self.data;
        let is_terminal = matches!(type_, LogType::Delete | LogType::Purge);
        if is_terminal {
            let dup = self.any_terminal(message_id);
            let correlated = self.any_body_kind(message_id);
            if dup || !correlated {
                proof {
                    assert(append_skipped(entries_of(pre), message_id.0, type_));
                }
                return Ok(());
            }
        }
        let len = self.data.index.len();
        if len as u64 == u64::MAX {
            proof {
                assert(!append_skipped(entries_of(pre), message_id.0, type_));
            }
            return Err(Error::Full);
        }
        let id = len as u64 + 1;
        let rec = EventRecord { message_index_id: id, message_id, timestamp, type_, chunk_id: None };
        let mut data = StoreData {
            index: Vec::new(),
            staged: Vec::new(),
            chunks: Vec::new(),
            chunk_size_target: 0,
        };
        core::mem::swap(&mut data, &mut self.data);
        data.index.push(rec);
        let has_body = matches!(type_, LogType::Create | LogType::Edit);
        let staged_a_body: bool;
        match message {
            Some(m) => {
                if has_body && m.len() > 0 {
                    data.staged.push(StagedBody { message_index_id: id, data: m });
                    staged_a_body = true;
                } else {
                    staged_a_body = false;
                }
            },
            None => {
                staged_a_body = false;
            },
        }
        proof {
            if staged_a_body {
                assert(data.staged@.drop_last() =~= pre.staged@);
            }
            lemma_log_preserves_wf(pre, data, rec, staged_a_body);
            lemma_log_entries(pre, data, rec, staged_a_body);
        }
        self.data = data;
        Ok(())
    }

    /// The staged rows, in id order.
    pub closed spec fn staged_view(self) -> Seq<StagedBody> {
        self.data.staged@
    }

    /// The id range of chunk `c` (by position), inclusive on both ends.
    pub closed spec fn chunk_range(self, c: int) -> (u64, u64) {
        (
            self.data.chunks@[c].start_message_index_id,
            self.data.chunks@[c].end_message_index_id,
        )
    }

    /// One compaction pass.
    ///
    /// If the staged bytes do not exceed the target chunk size, nothing
    /// happens and `false` comes back. Otherwise the pass drains the greedy
    /// prefix of staged rows (`chunk_take_total`) into one new immutable
    /// chunk — synthesizing empty slots for ids in the range that have no
    /// staged body — then, in one step, records the chunk, points every index
    /// row in its range at it, and deletes the drained staged rows. The
    /// store's abstract view never changes. The result says whether enough
    /// staged bytes remain for another pass.
    #[verifier::rlimit(100)]
    pub fn compress(&mut self) -> (r: Result<bool, Error>)
        ensures
            final(self).target() == old(self).target(),
            final(self).entries() == old(self).entries(),
            r is Err ==> *final(self) == *old(self),
            r matches Err(e) ==> (e is Full || e is Codec),
            r matches Err(e) && e is Full ==> old(self).chunk_count() == u64::MAX,
            r matches Ok(more) ==> more == (final(self).staged_total() > old(self).target()),
            old(self).staged_total() <= old(self).target() ==> r is Ok,
            r is Ok && old(self).staged_total() <= old(self).target() ==> *final(self) == *old(
                self,
            ),
            final(self).record_view().len() == old(self).record_view().len(),
            r is Ok && old(self).staged_total() > old(self).target() ==> {
                let k = chunk_take_total(old(self).staged_view(), old(self).target() as int);
                let start = old(self).staged_view()[0].message_index_id;
                let end = old(self).staged_view()[k - 1].message_index_id;
                &&& final(self).staged_view() == old(self).staged_view().skip(k)
                &&& final(self).chunk_count() == old(self).chunk_count() + 1
                &&& final(self).chunk_range(old(self).chunk_count()) == (start, end)
                &&& forall|i: int|
                    0 <= i < old(self).record_view().len() && !(start - 1 <= i < end) ==> (
                    #[trigger] final(self).record_view()[i]) == old(self).record_view()[i]
                &&& forall|i: int|
                    start - 1 <= i < end ==> (#[trigger] final(self).record_view()[i]) == (
                    EventRecord {
                        chunk_id: Some((old(self).chunk_count() + 1) as u64),
                        ..old(self).record_view()[i]
                    }) && old(self).record_view()[i].chunk_id is None
            },
    {
        proof {
            use_type_invariant(&*self);
        }
        let ghost pre = self.data;
        let target = self.data.chunk_size_target;
        let total = staged_bytes_exec(&self.data.staged);
        if total <= target as u128 {
            return Ok(false);
        }
        if self.data.chunks.len() as u64 == u64::MAX {
            return Err(Error::Full);
        }
        proof {
            if pre.staged@.len() == 0 {
                assert(staged_bytes_total(pre.staged@) == 0);
            }
        }
        // Selection: walk staged rows in id order, framing each taken body and
        // an empty slot for every gap id, until the target is reached.
        let start = self.data.staged[0].message_index_id;
        let staged_n = self.data.staged.len();
        let empty_payload: Vec<u8> = Vec::new();
        let mut framed: Vec<u8> = Vec::new();
        proof {
            assert(empty_payload@ =~= Seq::<u8>::empty());
            assert(framed@ =~= frame_seq(Seq::<Seq<u8>>::empty()));
        }
        let ghost mut slots: Seq<Seq<u8>> = Seq::empty();
        let mut used: u64 = 0;
        let mut k: usize = 0;
        let mut end: u64 = start;
        proof {
            assert(pre.staged@.skip(0) =~= pre.staged@);
        }
        while k < staged_n
            invariant
                self.data == pre,
                store_wf(pre),
                staged_n == pre.staged@.len(),
                pre.staged@.len() > 0,
                start == pre.staged@[0].message_index_id,
                0 <= k <= staged_n,
                empty_payload@ == Seq::<u8>::empty(),
                k == 0 ==> end == start && slots.len() == 0 && used == 0,
                k > 0 ==> end == pre.staged@[k - 1].message_index_id,
                k > 0 ==> slots.len() == end - start + 1,
                framed@ == frame_seq(slots),
                forall|j: int| 0 <= j < slots.len() ==> is_frame(#[trigger] cobs_of(slots[j])),
                forall|j: int| 0 <= j < slots.len() ==> slots[j] == slot_expected(
                    pre.staged@,
                    (start + j) as u64,
                ),
                pre.staged@[0].data@.len() <= target ==> k + chunk_take(
                    pre.staged@.skip(k as int),
                    target - used,
                ) == chunk_take(pre.staged@, target as int) && used <= target,
                pre.staged@[0].data@.len() > target ==> (k == 0 && used == 0) || (k == 1
                    && used > target),
            ensures
                1 <= k <= staged_n,
                k == staged_n || used + pre.staged@[k as int].data@.len() > target,
            decreases staged_n - k,
        {
            let row_id = self.data.staged[k].message_index_id;
            let blen = self.data.staged[k].data.len();
            let fits = used as u128 + blen as u128 <= target as u128;
            if !fits && k > 0 {
                break;
            }
            if k > 0 {
                // synthesize empty placeholder slots for gap ids
                let mut g = end + 1;
                while g < row_id
                    invariant
                        self.data == pre,
                        store_wf(pre),
                        0 <= k < pre.staged@.len(),
                        start == pre.staged@[0].message_index_id,
                        end == pre.staged@[k - 1].message_index_id,
                        row_id == pre.staged@[k as int].message_index_id,
                        end < row_id,
                        end + 1 <= g <= row_id,
                        slots.len() == g - start,
                        empty_payload@ == Seq::<u8>::empty(),
                        framed@ == frame_seq(slots),
                        forall|j: int| 0 <= j < slots.len() ==> is_frame(
                            #[trigger] cobs_of(slots[j]),
                        ),
                        forall|j: int| 0 <= j < slots.len() ==> slots[j] == slot_expected(
                            pre.staged@,
                            (start + j) as u64,
                        ),
                    decreases row_id - g,
                {
                    let mut fr = cobs_encode(&empty_payload);
                    framed.append(&mut fr);
                    proof {
                        crate::framing::lemma_frame_seq_push(slots, empty_payload@);
                        assert forall|a: int| 0 <= a < pre.staged@.len() implies (
                        #[trigger] pre.staged@[a].message_index_id) != g by {
                            if a < k {
                                assert(pre.staged@[a].message_index_id
                                    <= pre.staged@[k - 1].message_index_id);
                            } else {
                                assert(pre.staged@[a].message_index_id
                                    >= pre.staged@[k as int].message_index_id);
                            }
                        }
                        lemma_staged_lookup_absent(pre.staged@, g);
                        slots = slots.push(empty_payload@);
                    }
                    g = g + 1;
                }
            }
            let mut fr = cobs_encode(&self.data.staged[k].data);
            framed.append(&mut fr);
            proof {
                crate::framing::lemma_frame_seq_push(slots, pre.staged@[k as int].data@);
                lemma_staged_lookup_at(pre.staged@, k as int);
                slots = slots.push(pre.staged@[k as int].data@);
                if pre.staged@[0].data@.len() <= target && fits {
                    assert(pre.staged@.skip(k as int)[0] == pre.staged@[k as int]);
                    assert(pre.staged@.skip(k as int).drop_first() =~= pre.staged@.skip(
                        k + 1,
                    ));
                }
            }
            if fits {
                used = used + blen as u64;
            } else {
                used = blen as u64;
                proof {
                    assert(k == 0);
                    assert(pre.staged@[0].data@.len() > target);
                }
            }
            end = row_id;
            k = k + 1;
        }
        proof {
            lemma_chunk_take_exit(pre.staged@, target as int, k as int, used as int);
        }
        // Compress the framed slots; on failure nothing has been changed yet.
        let blob = match compress_bytes(&framed) {
            Ok(b) => b,
            Err(e) => {
                return Err(e);
            },
        };
        // Commit: insert the chunk, point the index rows in its range at it,
        // and delete the drained staged rows, as one state change.
        let mut data = StoreData {
            index: Vec::new(),
            staged: Vec::new(),
            chunks: Vec::new(),
            chunk_size_target: 0,
        };
        core::mem::swap(&mut data, &mut self.data);
        let cid = data.chunks.len() as u64 + 1;
        data.chunks.push(
            Chunk {
                chunk_id: cid,
                start_message_index_id: start,
                end_message_index_id: end,
                data: blob,
                slots: Ghost(slots),
            },
        );
        let ghost newc = data.chunks@.last();
        let idx_n = data.index.len();
        proof {
            assert(start <= end) by {
                if k > 1 {
                    assert(pre.staged@[0].message_index_id < pre.staged@[k - 1].message_index_id);
                }
            }
            assert(start >= 1);
            assert(end <= pre.index@.len());
            assert(idx_n == pre.index@.len());
        }
        let s_pos = (start - 1) as usize;
        let e_pos = (end - 1) as usize;
        let mut pos = s_pos;
        while pos <= e_pos
            invariant
                idx_n == data.index@.len(),
                data.index@.len() == pre.index@.len(),
                data.staged@ == pre.staged@,
                data.chunks@.len() == pre.chunks@.len() + 1,
                data.chunks@.drop_last() == pre.chunks@,
                data.chunks@.last() == newc,
                data.chunk_size_target == pre.chunk_size_target,
                k <= pre.staged@.len(),
                s_pos == start - 1,
                e_pos == end - 1,
                1 <= start <= end <= pre.index@.len(),
                s_pos <= pos <= e_pos + 1,
                forall|i: int| 0 <= i < pre.index@.len() && !(s_pos <= i < pos) ==> (
                #[trigger] data.index@[i]) == pre.index@[i],
                forall|i: int| s_pos <= i < pos ==> (#[trigger] data.index@[i]) == (EventRecord {
                    chunk_id: Some(cid),
                    ..pre.index@[i]
                }),
            decreases e_pos + 1 - pos,
        {
            let mut rec = data.index[pos];
            rec.chunk_id = Some(cid);
            data.index.set(pos, rec);
            pos = pos + 1;
        }
        let rest = data.staged.split_off(k);
        data.staged = rest;
        proof {
            assert(data.staged@ =~= pre.staged@.skip(k as int));
            assert(data.chunks@.drop_last() =~= pre.chunks@);
            lemma_compress_commit(pre, data, k as int, slots);
            assert forall|i: int| start - 1 <= i < end implies pre.index@[i].chunk_id
                is None by {
                assert(pre.index@[i].message_index_id == i + 1);
                match pre.index@[i].chunk_id {
                    Some(c0) => {
                        assert(pre.staged@[0].message_index_id > pre.chunks@[c0
                            - 1].end_message_index_id);
                        assert(pre.chunks@[c0 - 1].start_message_index_id <= i + 1 <= pre.chunks@[
                            c0 - 1].end_message_index_id);
                    },
                    None => {},
                }
            }
        }
        self.data = data;
        let remaining = staged_bytes_exec(&self.data.staged);
        Ok(remaining > target as u128)
    }

    /// Retrieves every event recorded for `message_id`, newest first, each
    /// `Create`/`Edit` with its body resolved from staging or from its chunk
    /// (each touched chunk is decompressed once).
    ///
    /// An empty result means no events were recorded — distinct from an
    /// error. Retrieval fails exactly when some `Create`/`Edit` entry's body
    /// cannot be resolved: that is a store-corruption error, never a silent
    /// miss. Chunks decompress by the store's invariant, so nothing else can
    /// fail.
    pub fn get(&self, message_id: MessageId) -> (r: Result<Vec<MessageLog>, Error>)
        ensures
            r matches Ok(v) ==> log_views(v@) == get_spec(self.entries(), message_id.0),
            r is Ok <==> !has_unresolved_body(self.entries(), message_id.0),
            r matches Err(e) ==> e is Corrupt,
    {
        proof {
            use_type_invariant(&*self);
        }
        let ghost d = self.data;
        let ghost es = entries_of(d);
        let mid = message_id.0;
        // Collect the matching index rows, bodies still unresolved.
        let n = self.data.index.len();
        let mut result: Vec<MessageLog> = Vec::new();
        let mut refs: Vec<Option<u64>> = Vec::new();
        let ghost mut ps: Seq<int> = Seq::empty();
        for i in 0..n
            invariant
                self.data == d,
                store_wf(d),
                n == d.index@.len(),
                selection_ok(d, mid, ps, result@, refs@, i as int),
                forall|u: int| 0 <= u < result@.len() ==> (
                #[trigger] result@[u].message) is None,
        {
            let ghost ops = ps;
            let ghost ores = result@;
            let ghost orefs = refs@;
            let rec = self.data.index[i];
            if rec.message_id.0 == mid {
                result.push(
                    MessageLog {
                        message_index_id: rec.message_index_id,
                        message_id: rec.message_id,
                        timestamp: rec.timestamp,
                        type_: rec.type_,
                        message: None,
                    },
                );
                refs.push(rec.chunk_id);
                proof {
                    ps = ps.push(i as int);
                }
            }
            proof {
                if d.index@[i as int].message_id.0 == mid {
                    assert(result@.drop_last() =~= ores);
                    assert(row_matches(d, result@.last(), i as int));
                }
                lemma_selection_step(d, mid, ops, ores, orefs, ps, result@, refs@, i as int);
            }
        }
        let m = result.len();
        // Resolve bodies still in staging.
        for t in 0..m
            invariant
                self.data == d,
                store_wf(d),
                es == entries_of(d),
                mid == message_id.0,
                m == result@.len(),
                selection_ok(d, mid, ps, result@, refs@, d.index@.len() as int),
                forall|u: int| 0 <= u < t ==> log_view_of(#[trigger] result@[u]).body
                    == body_resolved_upto(d, ps[u], 0),
                forall|u: int| t <= u < m ==> (#[trigger] result@[u].message) is None,
        {
            let needs_staged = matches!(result[t].type_, LogType::Create | LogType::Edit)
                && refs[t].is_none();
            if needs_staged {
                match staged_find(&self.data.staged, result[t].message_index_id) {
                    Some(b) => {
                        let copy = copy_bytes(b);
                        let ml = &mut result[t];
                        ml.message = Some(copy);
                    },
                    None => {},
                }
            }
            proof {
                assert(log_view_of(result@[t as int]).body == body_resolved_upto(
                    d,
                    ps[t as int],
                    0,
                ));
            }
        }
        // Resolve bodies from chunks: decompress each touched chunk once, then
        // pull each requested slot out of the framed buffer.
        let cn = self.data.chunks.len();
        for c in 0..cn
            invariant
                self.data == d,
                store_wf(d),
                es == entries_of(d),
                mid == message_id.0,
                n == d.index@.len(),
                m == result@.len(),
                cn == d.chunks@.len(),
                selection_ok(d, mid, ps, result@, refs@, d.index@.len() as int),
                forall|u: int| 0 <= u < m ==> log_view_of(#[trigger] result@[u]).body
                    == body_resolved_upto(d, ps[u], c as int),
        {
            let mut needs = false;
            for t in 0..m
                invariant
                    m == result@.len(),
                    m == refs@.len(),
                    c < cn,
                    needs ==> exists|u: int|
                        0 <= u < m && has_body_kind((#[trigger] result@[u]).type_) && refs@[u]
                            == Some((c + 1) as u64),
                    !needs ==> forall|u: int|
                        0 <= u < t ==> !(has_body_kind((#[trigger] result@[u]).type_) && refs@[u]
                            == Some((c + 1) as u64)),
            {
                if matches!(result[t].type_, LogType::Create | LogType::Edit) {
                    match refs[t] {
                        Some(cid) => {
                            if cid == c as u64 + 1 {
                                needs = true;
                            }
                        },
                        None => {},
                    }
                }
            }
            if needs {
                let ghost slots_c = d.chunks@[c as int].slots@;
                proof {
                    assert(chunk_wf(d.chunks@[c as int]));
                }
                let buf = match decompress_bytes(&self.data.chunks[c].data) {
                    Ok(b) => b,
                    Err(e) => {
                        // the invariant says the blob decompresses, so the
                        // wrapper's contract rules this branch out
                        proof {
                            assert(false);
                        }
                        return Err(e);
                    },
                };
                proof {
                    assert(buf@ == frame_seq(slots_c));
                }
                let start_c = self.data.chunks[c].start_message_index_id;
                for t in 0..m
                    invariant
                        self.data == d,
                        store_wf(d),
                        n == d.index@.len(),
                        m == result@.len(),
                        c < cn,
                        cn == d.chunks@.len(),
                        slots_c == d.chunks@[c as int].slots@,
                        start_c == d.chunks@[c as int].start_message_index_id,
                        buf@ == frame_seq(slots_c),
                        selection_ok(d, mid, ps, result@, refs@, d.index@.len() as int),
                        forall|u: int| 0 <= u < t ==> log_view_of(#[trigger] result@[u]).body
                            == body_resolved_upto(d, ps[u], c + 1),
                        forall|u: int| t <= u < m ==> log_view_of(
                            #[trigger] result@[u],
                        ).body == body_resolved_upto(d, ps[u], c as int),
                {
                    let wants_this_chunk = matches!(result[t].type_, LogType::Create
                        | LogType::Edit) && match refs[t] {
                        Some(cid) => cid == c as u64 + 1,
                        None => false,
                    };
                    if wants_this_chunk {
                        let ghost p = ps[t as int];
                        proof {
                            assert(row_matches(d, result@[t as int], p));
                            assert(refs@[t as int] == d.index@[p].chunk_id);
                            assert(d.index@[p].chunk_id == Some((c + 1) as u64));
                            assert(chunk_wf(d.chunks@[c as int]));
                            assert(d.chunks@[c as int].start_message_index_id <= p + 1
                                <= d.chunks@[c as int].end_message_index_id);
                            assert(d.index@[p].message_index_id == p + 1);
                            assert(result@[t as int].message_index_id == p + 1);
                        }
                        let slot = (result[t].message_index_id - start_c) as usize;
                        proof {
                            assert(slot == p + 1 - start_c);
                            assert(slot < slots_c.len());
                        }
                        let payload = extract_slot(&buf, slot, Ghost(slots_c));
                        let ghost before = result@;
                        proof {
                            assert(payload@ == slots_c[slot as int]);
                            assert(body_at(d, p) == (if slots_c[p + 1 - start_c].len() == 0 {
                                None::<Seq<u8>>
                            } else {
                                Some(slots_c[p + 1 - start_c])
                            }));
                        }
                        if payload.len() > 0 {
                            let ml = &mut result[t];
                            ml.message = Some(payload);
                        }
                        proof {
                            assert(log_view_of(result@[t as int]).body == body_resolved_upto(
                                d,
                                p,
                                c + 1,
                            ));
                            assert forall|u: int| 0 <= u < ps.len() implies row_matches(
                                d,
                                #[trigger] result@[u],
                                ps[u],
                            ) by {
                                if u != t as int {
                                    assert(result@[u] == before[u]);
                                }
                            }
                        }
                    } else {
                        proof {
                            assert(log_view_of(result@[t as int]).body == body_resolved_upto(
                                d,
                                ps[t as int],
                                c + 1,
                            ));
                        }
                    }
                }
            } else {
                proof {
                    assert forall|u: int| 0 <= u < m implies log_view_of(
                        #[trigger] result@[u],
                    ).body == body_resolved_upto(d, ps[u], c + 1) by {
                        assert(!(has_body_kind(result@[u].type_) && refs@[u] == Some(
                            (c + 1) as u64,
                        )));
                    }
                }
            }
        }
        // Every Create/Edit entry must have found a body by now; anything else
        // is corruption.
        for t in 0..m
            invariant
                self.data == d,
                store_wf(d),
                es == entries_of(d),
                mid == message_id.0,
                m == result@.len(),
                cn == d.chunks@.len(),
                selection_ok(d, mid, ps, result@, refs@, d.index@.len() as int),
                forall|u: int| 0 <= u < m ==> log_view_of(#[trigger] result@[u]).body
                    == body_resolved_upto(d, ps[u], cn as int),
                forall|u: int| 0 <= u < t ==> !(has_body_kind((#[trigger] result@[u]).type_)
                    && log_view_of(result@[u]).body is None),
        {
            if matches!(result[t].type_, LogType::Create | LogType::Edit) && result[
                t
            ].message.is_none() {
                proof {
                    let p = ps[t as int];
                    lemma_body_upto_full(d, p);
                    assert(es[p].message_id == mid && has_body_kind(es[p].type_) && es[p].body
                        is None);
                }
                return Err(
                    Error::corrupt("an event that must have a body has none in either store"),
                );
            }
        }
        proof {
            assert forall|t: int| 0 <= t < m implies log_views(result@)[t] == es[ps[t]] by {
                lemma_body_upto_full(d, ps[t]);
            }
            assert(log_views(result@) =~= Seq::new(ps.len(), |t: int| es[ps[t]]));
            lemma_selection_is_entries_for(es, mid, ps, log_views(result@));
            if has_unresolved_body(es, mid) {
                let p = choose|p: int|
                    0 <= p < es.len() && es[p].message_id == mid && has_body_kind(
                        #[trigger] es[p].type_,
                    ) && es[p].body is None;
                let t = choose|t: int| 0 <= t < ps.len() && ps[t] == p;
                lemma_body_upto_full(d, p);
                assert(!(has_body_kind(result@[t].type_) && log_view_of(result@[t]).body
                    is None));
                assert(false);
            }
        }
        // Newest first, wherever the body came from.
        let sorted = sort_logs(result);
        Ok(sorted)
    }

    /// Audits every chunk: decompresses it and checks that the number of
    /// framed slots inside equals the declared id range's size. A mismatch
    /// would be a fatal corruption error — on a well-formed store neither the
    /// decompression nor the count can fail, so the audit always passes.
    pub fn verify_compressed_chunks(&self) -> (r: Result<(), Error>)
        ensures
            r is Ok,
    {
        proof {
            use_type_invariant(&*self);
        }
        let ghost d = self.data;
        let cn = self.data.chunks.len();
        for c in 0..cn
            invariant
                self.data == d,
                store_wf(d),
                cn == d.chunks@.len(),
        {
            proof {
                assert(chunk_wf(d.chunks@[c as int]));
            }
            let buf = match decompress_bytes(&self.data.chunks[c].data) {
                Ok(b) => b,
                Err(e) => {
                    // the invariant says every blob decompresses
                    proof {
                        assert(false);
                    }
                    return Err(e);
                },
            };
            proof {
                assert(buf@ == frame_seq(d.chunks@[c as int].slots@));
                crate::framing::lemma_count_delimiters_frame_seq(d.chunks@[c as int].slots@);
            }
            let found = crate::framing::count_slots(&buf);
            let start = self.data.chunks[c].start_message_index_id;
            let end = self.data.chunks[c].end_message_index_id;
            if found != end - start + 1 {
                proof {
                    assert(false);
                }
                return Err(Error::corrupt("slot count differs from declared chunk range"));
            }
        }
        Ok(())
    }

    /// The event index rows, as recorded (chunk references included).
    pub closed spec fn record_view(self) -> Seq<EventRecord> {
        self.data.index@
    }

    /// Number of recorded events.
    pub fn record_count(&self) -> (r: usize)
        ensures
            r == self.record_view().len(),
            r == self.entries().len(),
    {
        self.data.index.len()
    }

    /// The index row at position `i`.
    pub fn record_at(&self, i: usize) -> (r: Option<EventRecord>)
        ensures
            i < self.record_view().len() ==> r == Some(self.record_view()[i as int]),
            i >= self.record_view().len() ==> r is None,
    {
        if i < self.data.index.len() {
            Some(self.data.index[i])
        } else {
            None
        }
    }

    /// Number of chunks.
    pub fn num_chunks(&self) -> (r: usize)
        ensures
            r == self.chunk_count(),
    {
        self.data.chunks.len()
    }

    /// The inclusive id range of chunk `c`, by position.
    pub fn chunk_bounds(&self, c: usize) -> (r: Option<(u64, u64)>)
        ensures
            c < self.chunk_count() ==> r == Some(self.chunk_range(c as int)),
            c >= self.chunk_count() ==> r is None,
    {
        if c < self.data.chunks.len() {
            Some(
                (
                    self.data.chunks[c].start_message_index_id,
                    self.data.chunks[c].end_message_index_id,
                ),
            )
        } else {
            None
        }
    }

    /// For every chunk, the size of its declared id range equals the number
    /// of index rows that reference it — synthesized gap slots included.
    pub fn chunk_record_count(&self, c: usize) -> (r: Option<u64>)
        ensures
            c < self.chunk_count() ==> (r matches Some(count) && count == count_referencing(
                self.record_view(),
                (c + 1) as u64,
            ) && count == self.chunk_range(c as int).1 - self.chunk_range(c as int).0 + 1),
            c >= self.chunk_count() ==> r is None,
    {
        proof {
            use_type_invariant(&*self);
        }
        if c >= self.data.chunks.len() {
            return None;
        }
        let start = self.data.chunks[c].start_message_index_id;
        let end = self.data.chunks[c].end_message_index_id;
        proof {
            let ghost d = self.data;
            assert(chunk_wf(d.chunks@[c as int]));
            assert(d.chunks@[c as int].chunk_id == (c + 1) as u64);
            assert forall|i: int| 0 <= i < d.index@.len() implies ((
            #[trigger] d.index@[i].chunk_id) == Some((c + 1) as u64) <==> start - 1 <= i
                < end) by {
                assert(d.index@[i].message_index_id == i + 1);
                if start - 1 <= i < end {
                    assert(d.chunks@[c as int].start_message_index_id <= i + 1
                        <= d.chunks@[c as int].end_message_index_id);
                    assert(d.index@[i].chunk_id == Some(d.chunks@[c as int].chunk_id));
                }
                if d.index@[i].chunk_id == Some((c + 1) as u64) {
                    let cid = (c + 1) as u64;
                    assert(1 <= cid <= d.chunks@.len());
                    assert(d.chunks@[cid - 1] == d.chunks@[c as int]);
                    assert(d.chunks@[cid - 1].start_message_index_id <= i + 1
                        <= d.chunks@[cid - 1].end_message_index_id);
                }
            }
            lemma_count_range(d.index@, (c + 1) as u64, start as int - 1, end as int);
        }
        Some(end - start + 1)
    }

    /// Facts that hold of every store a caller can reach, published so code
    /// outside this module can carry proofs over the public views: the byte
    /// total is the sum over the staged rows, which are sorted and non-empty;
    /// index ids are dense from 1; each abstract entry mirrors its index row;
    /// and terminal entries never carry a body. Does nothing at run time.
    pub fn invariant_facts(&self)
        ensures
            self.staged_total() == staged_bytes_total(self.staged_view()),
            self.staged_count() == self.staged_view().len(),
            staged_sorted(self.staged_view()),
            forall|s: int|
                0 <= s < self.staged_view().len() ==> (
                #[trigger] self.staged_view()[s].data@.len()) > 0,
            self.entries().len() == self.record_view().len(),
            forall|i: int|
                0 <= i < self.record_view().len() ==> (
                #[trigger] self.record_view()[i].message_index_id) == i + 1,
            forall|i: int|
                0 <= i < self.entries().len() ==> {
                    let e = #[trigger] self.entries()[i];
                    let rec = self.record_view()[i];
                    &&& e.message_index_id == rec.message_index_id
                    &&& e.message_id == rec.message_id.0
                    &&& e.timestamp == rec.timestamp
                    &&& e.type_ == rec.type_
                    &&& (is_terminal_kind(e.type_) ==> e.body is None)
                },
    {
        proof {
            use_type_invariant(&*self);
        }
    }

    /// Counts and byte totals on both sides of compaction. Byte totals are
    /// clamped into `u64`.
    pub fn get_compression_state(&self) -> (r: CompressionState)
        ensures
            r.uncompressed_messages == self.staged_count(),
            r.uncompressed_bytes == sat64(self.staged_total()),
            r.compressed_messages == count_chunked_of(*self),
            r.compressed_bytes == sat64(compressed_bytes_of(*self)),
            r.chunks == self.chunk_count(),
    {
        proof {
            use_type_invariant(&*self);
        }
        let staged_n = self.data.staged.len();
        let uncompressed_bytes = staged_bytes_exec(&self.data.staged);
        let compressed_messages = chunked_records_exec(&self.data.index);
        let compressed_bytes = chunk_bytes_exec(&self.data.chunks);
        let chunks_n = self.data.chunks.len();
        CompressionState {
            uncompressed_messages: staged_n as u64,
            uncompressed_bytes: clamp64(uncompressed_bytes),
            compressed_messages,
            compressed_bytes: clamp64(compressed_bytes),
            chunks: chunks_n as u64,
        }
    }
}

/// The abstract views of a sequence of retrieved events.
pub open spec fn log_views(s: Seq<MessageLog>) -> Seq<LogEntry> {
    Seq::new(s.len(), |t: int| log_view_of(s[t]))
}

/// A retrieved row carries the fields of index row `p` (body aside).
spec fn row_matches(d: StoreData, m: MessageLog, p: int) -> bool {
    &&& m.message_index_id == d.index@[p].message_index_id
    &&& m.message_id == d.index@[p].message_id
    &&& m.timestamp == d.index@[p].timestamp
    &&& m.type_ == d.index@[p].type_
}

/// The rows retrieval has selected for `mid` among index positions below
/// `bound`: their positions `ps`, in order and complete, with the chunk
/// reference of each remembered in `refs`.
spec fn selection_ok(
    d: StoreData,
    mid: u64,
    ps: Seq<int>,
    result: Seq<MessageLog>,
    refs: Seq<Option<u64>>,
    bound: int,
) -> bool {
    &&& result.len() == ps.len()
    &&& refs.len() == ps.len()
    &&& forall|t: int| 0 <= t < ps.len() ==> 0 <= (#[trigger] ps[t]) < bound
    &&& forall|a: int, b: int| 0 <= a < b < ps.len() ==> (#[trigger] ps[a]) < (#[trigger] ps[b])
    &&& forall|t: int| 0 <= t < ps.len() ==> d.index@[#[trigger] ps[t]].message_id.0 == mid
    &&& forall|t: int| 0 <= t < ps.len() ==> row_matches(d, #[trigger] result[t], ps[t])
    &&& forall|t: int| 0 <= t < ps.len() ==> (#[trigger] refs[t]) == d.index@[ps[t]].chunk_id
    &&& forall|j: int|
        0 <= j < bound && (#[trigger] d.index@[j]).message_id.0 == mid ==> exists|t: int|
            0 <= t < ps.len() && ps[t] == j
}

/// One collection step keeps the selection sound and complete.
proof fn lemma_selection_step(
    d: StoreData,
    mid: u64,
    ops: Seq<int>,
    ores: Seq<MessageLog>,
    orefs: Seq<Option<u64>>,
    ps: Seq<int>,
    res: Seq<MessageLog>,
    refs: Seq<Option<u64>>,
    i: int,
)
    requires
        0 <= i < d.index@.len(),
        selection_ok(d, mid, ops, ores, orefs, i),
        d.index@[i].message_id.0 == mid ==> {
            &&& ps == ops.push(i)
            &&& res.len() == ores.len() + 1
            &&& res.drop_last() == ores
            &&& row_matches(d, res.last(), i)
            &&& refs == orefs.push(d.index@[i].chunk_id)
        },
        d.index@[i].message_id.0 != mid ==> ps == ops && res == ores && refs == orefs,
    ensures
        selection_ok(d, mid, ps, res, refs, i + 1),
{
    if d.index@[i].message_id.0 == mid {
        assert forall|j: int|
            0 <= j < i + 1 && (#[trigger] d.index@[j]).message_id.0 == mid implies exists|t: int|
            0 <= t < ps.len() && ps[t] == j by {
            if j < i {
                let t0 = choose|t: int| 0 <= t < ops.len() && ops[t] == j;
                assert(ps[t0] == j);
            } else {
                assert(ps[ps.len() - 1] == j);
            }
        }
        assert forall|t: int| 0 <= t < ps.len() implies 0 <= (#[trigger] ps[t]) < i + 1 by {
            if t < ops.len() {
                assert(ps[t] == ops[t]);
            } else {
                assert(ps[t] == i);
            }
        }
        assert forall|t: int| 0 <= t < ps.len() implies d.index@[(
        #[trigger] ps[t])].message_id.0 == mid by {
            if t < ops.len() {
                assert(ps[t] == ops[t]);
            } else {
                assert(ps[t] == i);
            }
        }
        assert forall|t: int| 0 <= t < ps.len() implies row_matches(d, #[trigger] res[t], ps[t]) by {
            if t < ops.len() {
                assert(res[t] == ores[t]);
                assert(ps[t] == ops[t]);
            } else {
                assert(res[t] == res.last());
                assert(ps[t] == i);
            }
        }
        assert forall|t: int| 0 <= t < ps.len() implies (#[trigger] refs[t]) == d.index@[ps[t]].chunk_id by {
            if t < ops.len() {
                assert(refs[t] == orefs[t]);
                assert(ps[t] == ops[t]);
            } else {
                assert(refs[t] == refs.last());
                assert(ps[t] == i);
            }
        }
        assert forall|a: int, b: int| 0 <= a < b < ps.len() implies (#[trigger] ps[a]) < (
        #[trigger] ps[b]) by {
            if b < ops.len() {
            } else {
                assert(ps[b] == i);
                assert(ps[a] == ops[a]);
            }
        }
    } else {
        assert forall|j: int|
            0 <= j < i + 1 && (#[trigger] d.index@[j]).message_id.0 == mid implies exists|t: int|
            0 <= t < ps.len() && ps[t] == j by {
            let t0 = choose|t: int| 0 <= t < ops.len() && ops[t] == j;
            assert(ps[t0] == j);
        }
    }
}

/// The body of row `p` as resolved after the chunks up to position `c` have
/// been scanned: staged bodies are in, chunked bodies only for earlier chunks.
spec fn body_resolved_upto(d: StoreData, p: int, c: int) -> Option<Seq<u8>> {
    if !has_body_kind(d.index@[p].type_) {
        None
    } else {
        match d.index@[p].chunk_id {
            None => staged_lookup(d.staged@, d.index@[p].message_index_id),
            Some(cid) => if cid <= c {
                body_at(d, p)
            } else {
                None
            },
        }
    }
}

/// Once every chunk has been scanned, the resolved body is the abstract one.
proof fn lemma_body_upto_full(d: StoreData, p: int)
    requires
        store_wf(d),
        0 <= p < d.index@.len(),
    ensures
        body_resolved_upto(d, p, d.chunks@.len() as int) == body_at(d, p),
        entry_at(d, p).body == body_at(d, p),
{
}

/// The first staged row with the given id, if any.
fn staged_find<'a>(staged: &'a Vec<StagedBody>, id: u64) -> (r: Option<&'a Vec<u8>>)
    ensures
        match staged_lookup(staged@, id) {
            Some(b) => r matches Some(v) && v@ == b,
            None => r is None,
        },
{
    let n = staged.len();
    proof {
        assert(staged@.skip(0) =~= staged@);
    }
    for t in 0..n
        invariant
            n == staged@.len(),
            staged_lookup(staged@, id) == staged_lookup(staged@.skip(t as int), id),
    {
        proof {
            assert(staged@.skip(t as int)[0] == staged@[t as int]);
            assert(staged@.skip(t as int).drop_first() =~= staged@.skip(t + 1));
        }
        if staged[t].message_index_id == id {
            return Some(&staged[t].data);
        }
    }
    proof {
        assert(staged@.skip(n as int) =~= Seq::<StagedBody>::empty());
    }
    None
}

/// A fresh copy of a byte buffer.
fn copy_bytes(v: &Vec<u8>) -> (r: Vec<u8>)
    ensures
        r@ == v@,
{
    let n = v.len();
    let mut r: Vec<u8> = Vec::new();
    for i in 0..n
        invariant
            n == v@.len(),
            r@ == v@.take(i as int),
    {
        r.push(v[i]);
        proof {
            assert(v@.take(i + 1) =~= v@.take(i as int).push(v@[i as int]));
        }
    }
    proof {
        assert(v@.take(n as int) =~= v@);
    }
    r
}

/// Whether `a` sorts no later than `b` in retrieval order.
fn after_exec(a: &MessageLog, b: &MessageLog) -> (r: bool)
    ensures
        r == entry_after(log_view_of(*a), log_view_of(*b)),
{
    a.timestamp > b.timestamp || (a.timestamp == b.timestamp && a.message_index_id
        >= b.message_index_id)
}

/// `insert_desc` puts an element exactly at the first position it sorts
/// before.
proof fn lemma_insert_desc_at(t: Seq<LogEntry>, e: LogEntry, j: int)
    requires
        0 <= j <= t.len(),
        forall|u: int| 0 <= u < j ==> !entry_after(e, #[trigger] t[u]),
        j < t.len() ==> entry_after(e, t[j]),
    ensures
        insert_desc(t, e) == t.take(j) + seq![e] + t.skip(j),
    decreases t.len(),
{
    if t.len() == 0 {
        assert(insert_desc(t, e) =~= t.take(0) + seq![e] + t.skip(0));
    } else if entry_after(e, t[0]) {
        assert(j == 0);
        assert(insert_desc(t, e) =~= t.take(0) + seq![e] + t.skip(0));
    } else {
        assert(j >= 1);
        lemma_insert_desc_at(t.drop_first(), e, j - 1);
        assert(insert_desc(t, e) == seq![t[0]] + insert_desc(t.drop_first(), e));
        assert(insert_desc(t, e) =~= t.take(j) + seq![e] + t.skip(j));
    }
}

/// Sorts retrieved events into retrieval order (newest first) by insertion.
fn sort_logs(input: Vec<MessageLog>) -> (r: Vec<MessageLog>)
    ensures
        log_views(r@) == sort_desc(log_views(input@)),
{
    let ghost orig = input@;
    let mut input = input;
    let total = input.len();
    let mut out: Vec<MessageLog> = Vec::new();
    let mut i: usize = 0;
    proof {
        assert(orig.skip(0) =~= orig);
        assert(log_views(out@) =~= sort_desc(log_views(orig.take(0))));
    }
    while input.len() > 0
        invariant
            total == orig.len(),
            input@ == orig.skip(i as int),
            i + input@.len() == orig.len(),
            out@.len() == i,
            log_views(out@) == sort_desc(log_views(orig.take(i as int))),
        decreases input@.len(),
    {
        let x = input.remove(0);
        proof {
            assert(x == orig[i as int]);
            assert(orig.skip(i as int).remove(0) =~= orig.skip(i + 1));
        }
        let ghost gout = log_views(out@);
        let ghost vx = log_view_of(x);
        let olen = out.len();
        let mut j: usize = 0;
        loop
            invariant
                olen == out@.len(),
                gout == log_views(out@),
                vx == log_view_of(x),
                0 <= j <= olen,
                forall|u: int| 0 <= u < j ==> !entry_after(vx, #[trigger] gout[u]),
            ensures
                0 <= j <= olen,
                olen == out@.len(),
                forall|u: int| 0 <= u < j ==> !entry_after(vx, #[trigger] gout[u]),
                j < olen ==> entry_after(vx, gout[j as int]),
            decreases olen - j,
        {
            if j >= olen {
                break;
            }
            if after_exec(&x, &out[j]) {
                break;
            }
            j = j + 1;
        }
        proof {
            lemma_insert_desc_at(gout, vx, j as int);
        }
        out.insert(j, x);
        proof {
            assert(log_views(out@) =~= gout.take(j as int) + seq![vx] + gout.skip(j as int));
            assert(log_views(orig.take(i + 1)).drop_last() =~= log_views(orig.take(i as int)));
            assert(log_views(orig.take(i + 1)).last() == vx);
            assert(log_views(out@) == insert_desc(sort_desc(log_views(orig.take(i as int))), vx));
            assert(log_views(out@) == sort_desc(log_views(orig.take(i + 1))));
        }
        i = i + 1;
    }
    proof {
        assert(orig.take(orig.len() as int) =~= orig);
    }
    out
}

/// Selecting, in order, every entry whose message id matches — which is what
/// retrieval's collection pass does — yields exactly `entries_for`.
proof fn lemma_selection_is_entries_for(es: Seq<LogEntry>, mid: u64, ps: Seq<int>, xs: Seq<LogEntry>)
    requires
        xs.len() == ps.len(),
        forall|t: int| 0 <= t < ps.len() ==> 0 <= (#[trigger] ps[t]) < es.len(),
        forall|a: int, b: int| 0 <= a < b < ps.len() ==> (#[trigger] ps[a]) < (#[trigger] ps[b]),
        forall|t: int| 0 <= t < ps.len() ==> es[#[trigger] ps[t]].message_id == mid,
        forall|t: int| 0 <= t < ps.len() ==> (#[trigger] xs[t]) == es[ps[t]],
        forall|j: int|
            0 <= j < es.len() && (#[trigger] es[j]).message_id == mid ==> exists|t: int|
                0 <= t < ps.len() && ps[t] == j,
    ensures
        xs == entries_for(es, mid),
    decreases es.len(),
{
    if es.len() == 0 {
        if ps.len() > 0 {
            assert(0 <= ps[0]);
            assert(ps[0] < es.len());
            assert(false);
        }
        assert(xs =~= entries_for(es, mid));
    } else {
        let n = es.len() - 1;
        if es[n].message_id == mid {
            let tl = choose|t: int| 0 <= t < ps.len() && ps[t] == n;
            assert(tl == ps.len() - 1) by {
                if tl < ps.len() - 1 {
                    assert(ps[tl] < ps[ps.len() - 1]);
                    assert(ps[ps.len() - 1] < es.len());
                }
            }
            assert forall|j: int|
                0 <= j < es.drop_last().len() && (#[trigger] es.drop_last()[j]).message_id
                    == mid implies exists|t: int|
                0 <= t < ps.drop_last().len() && ps.drop_last()[t] == j by {
                assert(es[j].message_id == mid);
                let t0 = choose|t: int| 0 <= t < ps.len() && ps[t] == j;
                assert(t0 < ps.len() - 1) by {
                    if t0 == ps.len() - 1 {
                        assert(ps[t0] == n);
                    }
                }
                assert(ps.drop_last()[t0] == j);
            }
            lemma_selection_is_entries_for(es.drop_last(), mid, ps.drop_last(), xs.drop_last());
            assert(xs =~= xs.drop_last().push(xs[ps.len() - 1]));
            assert(entries_for(es, mid) == entries_for(es.drop_last(), mid) + seq![es[n]]);
            assert(xs =~= entries_for(es, mid));
        } else {
            assert forall|t: int| 0 <= t < ps.len() implies 0 <= (#[trigger] ps[t]) < n by {
                assert(es[ps[t]].message_id == mid);
            }
            lemma_selection_is_entries_for(es.drop_last(), mid, ps, xs);
            assert(entries_for(es, mid) =~= entries_for(es.drop_last(), mid));
            assert(xs =~= entries_for(es, mid));
        }
    }
}

// ---------------------------------------------------------------------------
// Laws of the store, stated over the abstract view.
// ---------------------------------------------------------------------------

/// A sequence in retrieval order: newest first, ties towards the later entry.
pub open spec fn retrieval_ordered(s: Seq<LogEntry>) -> bool {
    forall|a: int, b: int| 0 <= a < b < s.len() ==> entry_after(#[trigger] s[a], #[trigger] s[b])
}

proof fn lemma_insert_desc_elems(t: Seq<LogEntry>, e: LogEntry)
    ensures
        insert_desc(t, e).len() == t.len() + 1,
        forall|j: int|
            0 <= j < insert_desc(t, e).len() ==> (#[trigger] insert_desc(t, e)[j]) == e || exists|
                i: int,
            | 0 <= i < t.len() && t[i] == insert_desc(t, e)[j],
    decreases t.len(),
{
    if t.len() == 0 {
    } else if entry_after(e, t[0]) {
        assert forall|j: int| 0 <= j < insert_desc(t, e).len() implies (
        #[trigger] insert_desc(t, e)[j]) == e || exists|i: int|
            0 <= i < t.len() && t[i] == insert_desc(t, e)[j] by {
            if j > 0 {
                assert(t[j - 1] == insert_desc(t, e)[j]);
            }
        }
    } else {
        lemma_insert_desc_elems(t.drop_first(), e);
        assert forall|j: int| 0 <= j < insert_desc(t, e).len() implies (
        #[trigger] insert_desc(t, e)[j]) == e || exists|i: int|
            0 <= i < t.len() && t[i] == insert_desc(t, e)[j] by {
            if j > 0 {
                let sub = insert_desc(t.drop_first(), e);
                assert(insert_desc(t, e)[j] == sub[j - 1]);
                if sub[j - 1] != e {
                    let i0 = choose|i: int| 0 <= i < t.drop_first().len() && t.drop_first()[i]
                        == sub[j - 1];
                    assert(t[i0 + 1] == insert_desc(t, e)[j]);
                }
            }
        }
    }
}

proof fn lemma_insert_desc_sorted(t: Seq<LogEntry>, e: LogEntry)
    requires
        retrieval_ordered(t),
    ensures
        retrieval_ordered(insert_desc(t, e)),
    decreases t.len(),
{
    if t.len() == 0 {
    } else if entry_after(e, t[0]) {
        assert forall|a: int, b: int| 0 <= a < b < insert_desc(t, e).len() implies entry_after(
            #[trigger] insert_desc(t, e)[a],
            #[trigger] insert_desc(t, e)[b],
        ) by {
            if a > 0 {
                assert(insert_desc(t, e)[a] == t[a - 1]);
                assert(insert_desc(t, e)[b] == t[b - 1]);
            } else {
                assert(insert_desc(t, e)[b] == t[b - 1]);
                if b > 1 {
                    assert(entry_after(t[0], t[b - 1]));
                }
            }
        }
    } else {
        lemma_insert_desc_sorted(t.drop_first(), e);
        lemma_insert_desc_elems(t.drop_first(), e);
        let sub = insert_desc(t.drop_first(), e);
        assert forall|a: int, b: int| 0 <= a < b < insert_desc(t, e).len() implies entry_after(
            #[trigger] insert_desc(t, e)[a],
            #[trigger] insert_desc(t, e)[b],
        ) by {
            if a > 0 {
                assert(insert_desc(t, e)[a] == sub[a - 1]);
                assert(insert_desc(t, e)[b] == sub[b - 1]);
            } else {
                assert(insert_desc(t, e)[0] == t[0]);
                assert(insert_desc(t, e)[b] == sub[b - 1]);
                // t[0] sorts before e (totality) and before every element of t
                if sub[b - 1] == e {
                } else {
                    let i0 = choose|i: int| 0 <= i < t.drop_first().len() && t.drop_first()[i]
                        == sub[b - 1];
                    assert(entry_after(t[0], t[i0 + 1]));
                }
            }
        }
    }
}

proof fn lemma_sort_desc_sorted(s: Seq<LogEntry>)
    ensures
        retrieval_ordered(sort_desc(s)),
        sort_desc(s).len() == s.len(),
    decreases s.len(),
{
    if s.len() > 0 {
        lemma_sort_desc_sorted(s.drop_last());
        lemma_insert_desc_sorted(sort_desc(s.drop_last()), s.last());
        lemma_insert_desc_elems(sort_desc(s.drop_last()), s.last());
    }
}

proof fn lemma_insert_desc_contains(t: Seq<LogEntry>, e: LogEntry, x: LogEntry)
    requires
        x == e || exists|i: int| 0 <= i < t.len() && (#[trigger] t[i]) == x,
    ensures
        exists|j: int| 0 <= j < insert_desc(t, e).len() && (#[trigger] insert_desc(t, e)[j]) == x,
    decreases t.len(),
{
    if t.len() == 0 {
        assert(insert_desc(t, e)[0] == e);
    } else if entry_after(e, t[0]) {
        if x == e {
            assert(insert_desc(t, e)[0] == x);
        } else {
            let i0 = choose|i: int| 0 <= i < t.len() && t[i] == x;
            assert(insert_desc(t, e)[i0 + 1] == x);
        }
    } else {
        if x == e || (exists|i: int| 1 <= i < t.len() && t[i] == x) {
            if x != e {
                let i0 = choose|i: int| 1 <= i < t.len() && t[i] == x;
                assert(t.drop_first()[i0 - 1] == x);
            }
            lemma_insert_desc_contains(t.drop_first(), e, x);
            let j0 = choose|j: int|
                0 <= j < insert_desc(t.drop_first(), e).len() && insert_desc(t.drop_first(), e)[j]
                    == x;
            assert(insert_desc(t, e)[j0 + 1] == x);
        } else {
            assert(t[0] == x);
            assert(insert_desc(t, e)[0] == x);
        }
    }
}

proof fn lemma_sort_desc_contains(s: Seq<LogEntry>, x: LogEntry)
    requires
        exists|i: int| 0 <= i < s.len() && (#[trigger] s[i]) == x,
    ensures
        exists|j: int| 0 <= j < sort_desc(s).len() && (#[trigger] sort_desc(s)[j]) == x,
    decreases s.len(),
{
    let i0 = choose|i: int| 0 <= i < s.len() && s[i] == x;
    if i0 == s.len() - 1 {
        lemma_insert_desc_contains(sort_desc(s.drop_last()), s.last(), x);
    } else {
        assert(s.drop_last()[i0] == x);
        lemma_sort_desc_contains(s.drop_last(), x);
        lemma_insert_desc_contains(sort_desc(s.drop_last()), s.last(), x);
    }
    assert(sort_desc(s) == insert_desc(sort_desc(s.drop_last()), s.last()));
    let j0 = choose|j: int|
        0 <= j < insert_desc(sort_desc(s.drop_last()), s.last()).len() && insert_desc(
            sort_desc(s.drop_last()),
            s.last(),
        )[j] == x;
    assert(sort_desc(s)[j0] == x);
}

proof fn lemma_entries_for_last(entries: Seq<LogEntry>, e: LogEntry, message_id: u64)
    requires
        e.message_id == message_id,
    ensures
        entries_for(entries.push(e), message_id) == entries_for(entries, message_id) + seq![e],
{
    assert(entries.push(e).drop_last() =~= entries);
}

/// Round-trip: appending a `Create`/`Edit` event with a non-empty body adds an
/// entry holding exactly that body, and retrieval for its message returns that
/// entry byte-identically. Compaction never enters the picture: by
/// `compress`'s contract the abstract view — and with it `get_spec` — is the
/// same before and after any number of compaction passes.
pub proof fn lemma_round_trip(
    entries: Seq<LogEntry>,
    message_id: u64,
    timestamp: i64,
    t: LogType,
    body: Seq<u8>,
)
    requires
        has_body_kind(t),
        body.len() > 0,
    ensures
        appended_entry(entries, message_id, timestamp, t, Some(body)).body == Some(body),
        exists|j: int|
            0 <= j < get_spec(
                append_effect(entries, message_id, timestamp, t, Some(body)),
                message_id,
            ).len() && #[trigger] get_spec(
                append_effect(entries, message_id, timestamp, t, Some(body)),
                message_id,
            )[j] == appended_entry(entries, message_id, timestamp, t, Some(body)),
{
    let e = appended_entry(entries, message_id, timestamp, t, Some(body));
    let post = append_effect(entries, message_id, timestamp, t, Some(body));
    assert(!append_skipped(entries, message_id, t));
    assert(post == entries.push(e));
    lemma_entries_for_last(entries, e, message_id);
    let fs = entries_for(post, message_id);
    assert(fs[fs.len() - 1] == e);
    lemma_sort_desc_contains(fs, e);
    let j0 = choose|j: int| 0 <= j < sort_desc(fs).len() && sort_desc(fs)[j] == e;
    assert(get_spec(post, message_id)[j0] == e);
}

/// Idempotence: a second `Delete`/`Purge` for the same message is a no-op —
/// at most one terminal entry ever exists per message.
pub proof fn lemma_delete_idempotent(
    entries: Seq<LogEntry>,
    message_id: u64,
    t1: i64,
    t2: i64,
    k1: LogType,
    k2: LogType,
)
    requires
        is_terminal_kind(k1),
        is_terminal_kind(k2),
    ensures
        append_effect(
            append_effect(entries, message_id, t1, k1, None),
            message_id,
            t2,
            k2,
            None,
        ) == append_effect(entries, message_id, t1, k1, None),
{
    let once = append_effect(entries, message_id, t1, k1, None);
    if append_skipped(entries, message_id, k1) {
        assert(once == entries);
        assert(append_skipped(once, message_id, k2)) by {
            if has_terminal_for(entries, message_id) {
            } else {
                assert(!has_body_entry_for(entries, message_id));
            }
        }
    } else {
        let e = appended_entry(entries, message_id, t1, k1, None);
        assert(once == entries.push(e));
        assert(once[once.len() - 1] == e);
        assert(is_terminal_kind(once[once.len() - 1].type_));
        assert(once[once.len() - 1].message_id == message_id);
        assert(has_terminal_for(once, message_id));
    }
}

/// Ordering: what retrieval returns is sorted by timestamp descending —
/// independent of where each body was stored, since `get_spec` is a function
/// of the abstract view alone.
pub proof fn lemma_get_events_sorted(entries: Seq<LogEntry>, message_id: u64)
    ensures
        retrieval_ordered(get_spec(entries, message_id)),
        forall|a: int, b: int|
            0 <= a < b < get_spec(entries, message_id).len() ==> (#[trigger] get_spec(
                entries,
                message_id,
            )[a]).timestamp >= (#[trigger] get_spec(entries, message_id)[b]).timestamp,
{
    lemma_sort_desc_sorted(entries_for(entries, message_id));
}

proof fn lemma_staged_bytes_concat(a: Seq<StagedBody>, b: Seq<StagedBody>)
    ensures
        staged_bytes_total(a + b) == staged_bytes_total(a) + staged_bytes_total(b),
    decreases b.len(),
{
    if b.len() == 0 {
        assert(a + b =~= a);
    } else {
        assert((a + b).drop_last() =~= a + b.drop_last());
        assert((a + b).last() == b.last());
        lemma_staged_bytes_concat(a, b.drop_last());
    }
}

proof fn lemma_staged_bytes_nonneg(s: Seq<StagedBody>)
    ensures
        staged_bytes_total(s) >= 0,
    decreases s.len(),
{
    if s.len() > 0 {
        lemma_staged_bytes_nonneg(s.drop_last());
    }
}

proof fn lemma_chunk_take_bound(s: Seq<StagedBody>, budget: int)
    ensures
        0 <= chunk_take(s, budget) <= s.len(),
    decreases s.len(),
{
    if s.len() > 0 && s[0].data@.len() <= budget {
        lemma_chunk_take_bound(s.drop_first(), budget - s[0].data@.len());
    }
}

/// Compaction progress: whenever a pass runs (the staged bytes exceed the
/// target), the greedy prefix it drains — `chunk_take_total` rows, which
/// `compress` removes from `staged_view` — is non-empty and carries a
/// positive number of bytes. So every such pass strictly decreases both the
/// staged row count and the staged byte total, and repeatedly calling
/// `compress` until it reports no more work leaves the staged bytes at or
/// below the target after finitely many passes.
pub proof fn lemma_compress_progress(staged: Seq<StagedBody>, target: int)
    requires
        staged_bytes_total(staged) > target,
        target >= 0,
        forall|s: int| 0 <= s < staged.len() ==> (#[trigger] staged[s].data@.len()) > 0,
    ensures
        1 <= chunk_take_total(staged, target) <= staged.len(),
        staged.skip(chunk_take_total(staged, target)).len() < staged.len(),
        staged_bytes_total(staged.skip(chunk_take_total(staged, target)))
            < staged_bytes_total(staged),
{
    if staged.len() == 0 {
        assert(staged_bytes_total(staged) == 0);
    }
    lemma_chunk_take_bound(staged, target);
    let k = chunk_take_total(staged, target);
    assert(staged =~= staged.take(k) + staged.skip(k));
    lemma_staged_bytes_concat(staged.take(k), staged.skip(k));
    assert(staged.take(k) =~= staged.take(1) + staged.take(k).skip(1));
    lemma_staged_bytes_concat(staged.take(1), staged.take(k).skip(1));
    assert(staged_bytes_total(staged.take(1)) == staged[0].data@.len()) by {
        assert(staged_bytes_total(Seq::<StagedBody>::empty()) == 0);
        assert(staged.take(1).drop_last() =~= Seq::<StagedBody>::empty());
        assert(staged.take(1).last() == staged[0]);
    }
    lemma_staged_bytes_nonneg(staged.take(k).skip(1));
    assert(staged_bytes_total(staged.take(k)) > 0);
}

/// How many index rows reference the chunk with id `cid`.
pub open spec fn count_referencing(s: Seq<EventRecord>, cid: u64) -> int
    decreases s.len(),
{
    if s.len() == 0 {
        0
    } else {
        count_referencing(s.drop_last(), cid) + if s.last().chunk_id == Some(cid) {
            1int
        } else {
            0int
        }
    }
}

/// Rows referencing `cid` at exactly the positions `[a, b)` number `b - a`.
proof fn lemma_count_range(index: Seq<EventRecord>, cid: u64, a: int, b: int)
    requires
        0 <= a <= b <= index.len(),
        forall|i: int|
            0 <= i < index.len() ==> (((#[trigger] index[i].chunk_id) == Some(cid)) <==> a <= i
                < b),
    ensures
        count_referencing(index, cid) == b - a,
    decreases index.len(),
{
    if a == b {
        lemma_count_absent(index, cid);
    } else if index.len() > 0 {
        let n = index.len() - 1;
        if a <= n < b {
            assert(b == index.len());
            lemma_count_range(index.drop_last(), cid, a, b - 1);
        } else {
            assert(b <= n);
            lemma_count_range(index.drop_last(), cid, a, b);
        }
    }
}

/// No row references `cid`, so the count is zero.
proof fn lemma_count_absent(index: Seq<EventRecord>, cid: u64)
    requires
        forall|i: int| 0 <= i < index.len() ==> (#[trigger] index[i].chunk_id) != Some(cid),
    ensures
        count_referencing(index, cid) == 0,
    decreases index.len(),
{
    if index.len() > 0 {
        assert(index.last().chunk_id != Some(cid));
        lemma_count_absent(index.drop_last(), cid);
    }
}

/// How many of the store's rows are chunked.
pub closed spec fn count_chunked_of(s: MessageStore) -> int {
    count_chunked(s.data.index@)
}

/// Total bytes of the store's chunk blobs.
pub closed spec fn compressed_bytes_of(s: MessageStore) -> int {
    chunk_bytes_total(s.data.chunks@)
}

/// Clamps a 128-bit total into `u64`.
fn clamp64(x: u128) -> (r: u64)
    ensures
        r == sat64(x as int),
{
    if x > u64::MAX as u128 {
        u64::MAX
    } else {
        x as u64
    }
}

/// Sums staged body sizes. The sum of fewer than `usize::MAX` sizes, each at
/// most `usize::MAX`, always fits in 128 bits.
fn staged_bytes_exec(staged: &Vec<StagedBody>) -> (r: u128)
    ensures
        r == staged_bytes_total(staged@),
{
    let n = staged.len();
    let mut total: u128 = 0;
    for i in 0..n
        invariant
            n == staged@.len(),
            total == staged_bytes_total(staged@.take(i as int)),
            total <= i * 0xffff_ffff_ffff_ffff,
    {
        proof {
            assert(staged@.take(i + 1).drop_last() =~= staged@.take(i as int));
        }
        total = total + staged[i].data.len() as u128;
    }
    proof {
        assert(staged@.take(n as int) =~= staged@);
    }
    total
}

/// Counts rows referencing a chunk.
fn chunked_records_exec(index: &Vec<EventRecord>) -> (r: u64)
    ensures
        r == count_chunked(index@),
{
    let n = index.len();
    let mut count: u64 = 0;
    for i in 0..n
        invariant
            n == index@.len(),
            count == count_chunked(index@.take(i as int)),
            count <= i,
    {
        proof {
            assert(index@.take(i + 1).drop_last() =~= index@.take(i as int));
        }
        if index[i].chunk_id.is_some() {
            count = count + 1;
        }
    }
    proof {
        assert(index@.take(n as int) =~= index@);
    }
    count
}

/// Sums chunk blob sizes.
fn chunk_bytes_exec(chunks: &Vec<Chunk>) -> (r: u128)
    ensures
        r == chunk_bytes_total(chunks@),
{
    let n = chunks.len();
    let mut total: u128 = 0;
    for i in 0..n
        invariant
            n == chunks@.len(),
            total == chunk_bytes_total(chunks@.take(i as int)),
            total <= i * 0xffff_ffff_ffff_ffff,
    {
        proof {
            assert(chunks@.take(i + 1).drop_last() =~= chunks@.take(i as int));
        }
        total = total + chunks[i].data.len() as u128;
    }
    proof {
        assert(chunks@.take(n as int) =~= chunks@);
    }
    total
}

/// Appending one record (and perhaps staging its body) preserves
/// well-formedness.
proof fn lemma_log_preserves_wf(pre: StoreData, post: StoreData, rec: EventRecord, staged: bool)
    requires
        store_wf(pre),
        rec.message_index_id == pre.index@.len() + 1,
        rec.chunk_id is None,
        post.index@ == pre.index@.push(rec),
        post.chunks@ == pre.chunks@,
        staged ==> has_body_kind(rec.type_) && post.staged@.len() == pre.staged@.len() + 1
            && post.staged@.drop_last() == pre.staged@
            && post.staged@.last().message_index_id == rec.message_index_id
            && post.staged@.last().data@.len() > 0,
        !staged ==> post.staged@ == pre.staged@,
    ensures
        store_wf(post),
{
    let n = pre.index@.len() as int;
    assert forall|i: int| 0 <= i < post.index@.len() implies (
    #[trigger] post.index@[i].message_index_id) == i + 1 by {
        if i < n {
            assert(post.index@[i] == pre.index@[i]);
        }
    }
    assert forall|s: int, t: int| 0 <= s < t < post.staged@.len() implies (
    #[trigger] post.staged@[s].message_index_id) < (#[trigger] post.staged@[t].message_index_id) by {
        if t < pre.staged@.len() as int {
            assert(post.staged@[s] == pre.staged@[s]);
            assert(post.staged@[t] == pre.staged@[t]);
        } else {
            assert(post.staged@[t] == post.staged@.last());
            assert(post.staged@[s] == pre.staged@[s]);
            assert(post.staged@[s].message_index_id <= n);
        }
    }
    assert forall|s: int| 0 <= s < post.staged@.len() implies 1 <= (
    #[trigger] post.staged@[s].message_index_id) <= post.index@.len() && has_body_kind(
        post.index@[post.staged@[s].message_index_id - 1].type_,
    ) && post.index@[post.staged@[s].message_index_id - 1].chunk_id is None && post.staged@[s].data@.len()
        > 0 by {
        if s < pre.staged@.len() as int {
            assert(post.staged@[s] == pre.staged@[s]);
            let id = pre.staged@[s].message_index_id;
            assert(post.index@[id - 1] == pre.index@[id - 1]);
        } else {
            assert(post.staged@[s] == post.staged@.last());
            assert(post.index@[n] == rec);
        }
    }
    assert forall|s: int| 0 <= s < post.staged@.len() implies (
    #[trigger] post.staged@[s].data@.len()) > 0 by {
        assert(post.staged@[s].message_index_id >= 1);
    }
    assert forall|s: int| 0 <= s < post.staged@.len() implies has_body_kind(
        post.index@[(#[trigger] post.staged@[s].message_index_id) - 1].type_,
    ) && post.index@[post.staged@[s].message_index_id - 1].chunk_id is None by {
        assert(post.staged@[s].message_index_id >= 1);
    }
    assert forall|c: int| 0 <= c < post.chunks@.len() implies (#[trigger] post.chunks@[c].chunk_id)
        == c + 1 && chunk_wf(post.chunks@[c]) && post.chunks@[c].end_message_index_id
        <= post.index@.len() by {
        assert(post.chunks@[c] == pre.chunks@[c]);
    }
    assert forall|s: int, c: int|
        0 <= s < post.staged@.len() && 0 <= c < post.chunks@.len() implies (
    #[trigger] post.staged@[s].message_index_id) > (
    #[trigger] post.chunks@[c].end_message_index_id) by {
        assert(post.chunks@[c] == pre.chunks@[c]);
        if s < pre.staged@.len() as int {
            assert(post.staged@[s] == pre.staged@[s]);
        } else {
            assert(post.staged@[s].message_index_id == n + 1);
            assert(pre.chunks@[c].end_message_index_id <= n);
        }
    }
    assert forall|i: int, c: int|
        0 <= i < post.index@.len() && 0 <= c < post.chunks@.len()
            && post.chunks@[c].start_message_index_id <= i + 1
            <= post.chunks@[c].end_message_index_id implies (#[trigger] post.index@[i].chunk_id)
        == Some((#[trigger] post.chunks@[c].chunk_id)) by {
        assert(post.chunks@[c] == pre.chunks@[c]);
        assert(pre.chunks@[c].end_message_index_id <= n);
        assert(i < n);
        assert(post.index@[i] == pre.index@[i]);
    }
    assert forall|i: int| 0 <= i < post.index@.len() implies ((
    #[trigger] post.index@[i].chunk_id) matches Some(cid) ==> 1 <= cid <= post.chunks@.len()
        && post.chunks@[cid - 1].start_message_index_id <= i + 1
        <= post.chunks@[cid - 1].end_message_index_id) by {
        if i < n {
            assert(post.index@[i] == pre.index@[i]);
            if pre.index@[i].chunk_id is Some {
                let cid = pre.index@[i].chunk_id->Some_0;
                assert(post.chunks@[cid - 1] == pre.chunks@[cid - 1]);
            }
        } else {
            assert(post.index@[i] == rec);
        }
    }
}

/// Appending one record appends exactly the expected abstract entry.
proof fn lemma_log_entries(pre: StoreData, post: StoreData, rec: EventRecord, staged: bool)
    requires
        store_wf(pre),
        store_wf(post),
        rec.message_index_id == pre.index@.len() + 1,
        rec.chunk_id is None,
        post.index@ == pre.index@.push(rec),
        post.chunks@ == pre.chunks@,
        staged ==> has_body_kind(rec.type_) && post.staged@.len() == pre.staged@.len() + 1
            && post.staged@.drop_last() == pre.staged@
            && post.staged@.last().message_index_id == rec.message_index_id
            && post.staged@.last().data@.len() > 0,
        !staged ==> post.staged@ == pre.staged@,
    ensures
        entries_of(post) == entries_of(pre).push(
            LogEntry {
                message_index_id: rec.message_index_id,
                message_id: rec.message_id.0,
                timestamp: rec.timestamp,
                type_: rec.type_,
                body: if staged {
                    Some(post.staged@.last().data@)
                } else {
                    None
                },
            },
        ),
        staged ==> staged_bytes_total(post.staged@) == staged_bytes_total(pre.staged@)
            + post.staged@.last().data@.len(),
        !staged ==> staged_bytes_total(post.staged@) == staged_bytes_total(pre.staged@),
{
    if staged {
        // staged lookups for old ids are unchanged by pushing a new, larger id
        assert(post.staged@ =~= pre.staged@.push(post.staged@.last()));
        assert forall|id: u64| id < rec.message_index_id implies staged_lookup(post.staged@, id)
            == staged_lookup(pre.staged@, id) by {
            lemma_staged_lookup_push(pre.staged@, post.staged@.last(), id);
        }
        lemma_staged_lookup_last(post.staged@);
    }
    assert forall|i: int| 0 <= i < pre.index@.len() implies entry_at(post, i) == entry_at(
        pre,
        i,
    ) by {
        assert(post.index@[i] == pre.index@[i]);
        assert(pre.index@[i].message_index_id == i + 1);
    }
    if !staged {
        if has_body_kind(rec.type_) {
            lemma_staged_lookup_above(pre.staged@, rec.message_index_id, pre.index@.len() as u64);
        }
        assert(entry_at(post, pre.index@.len() as int).body is None);
    }
    assert(entries_of(post) =~= entries_of(pre).push(entry_at(post, pre.index@.len() as int)));
}

/// Pushing a row with a new id does not change lookups of other ids.
proof fn lemma_staged_lookup_push(s: Seq<StagedBody>, row: StagedBody, id: u64)
    requires
        id != row.message_index_id,
    ensures
        staged_lookup(s.push(row), id) == staged_lookup(s, id),
    decreases s.len(),
{
    if s.len() == 0 {
        assert(s.push(row)[0] == row);
        assert(s.push(row).drop_first() =~= s);
    } else {
        assert(s.push(row)[0] == s[0]);
        assert(s.push(row).drop_first() =~= s.drop_first().push(row));
        lemma_staged_lookup_push(s.drop_first(), row, id);
    }
}

/// Whether the staged table is sorted by id, strictly increasing.
pub open spec fn staged_sorted(s: Seq<StagedBody>) -> bool {
    forall|a: int, b: int|
        0 <= a < b < s.len() ==> (#[trigger] s[a].message_index_id) < (
        #[trigger] s[b].message_index_id)
}

/// A sorted staged table finds each of its own rows.
proof fn lemma_staged_lookup_at(s: Seq<StagedBody>, k: int)
    requires
        staged_sorted(s),
        0 <= k < s.len(),
    ensures
        staged_lookup(s, s[k].message_index_id) == Some(s[k].data@),
    decreases s.len(),
{
    if k == 0 {
    } else {
        assert(s[0].message_index_id < s[k].message_index_id);
        assert(s.drop_first()[k - 1] == s[k]);
        lemma_staged_lookup_at(s.drop_first(), k - 1);
    }
}

/// A sorted staged table finds its own last row.
proof fn lemma_staged_lookup_last(s: Seq<StagedBody>)
    requires
        s.len() > 0,
        staged_sorted(s),
    ensures
        staged_lookup(s, s.last().message_index_id) == Some(s.last().data@),
{
    lemma_staged_lookup_at(s, s.len() - 1);
}

/// An id held by no row is not found.
proof fn lemma_staged_lookup_absent(s: Seq<StagedBody>, id: u64)
    requires
        forall|a: int| 0 <= a < s.len() ==> (#[trigger] s[a].message_index_id) != id,
    ensures
        staged_lookup(s, id) is None,
    decreases s.len(),
{
    if s.len() > 0 {
        assert(s[0].message_index_id != id);
        lemma_staged_lookup_absent(s.drop_first(), id);
    }
}

/// A found staged body is never empty, provided no row stages an empty one.
proof fn lemma_staged_lookup_nonempty(s: Seq<StagedBody>, id: u64)
    requires
        forall|a: int| 0 <= a < s.len() ==> (#[trigger] s[a].data@.len()) > 0,
    ensures
        staged_lookup(s, id) matches Some(b) ==> b.len() > 0,
    decreases s.len(),
{
    if s.len() > 0 {
        assert(s[0].data@.len() > 0);
        lemma_staged_lookup_nonempty(s.drop_first(), id);
    }
}

/// When the selection loop stops — either out of rows, or at a row that no
/// longer fits — it has taken exactly the greedy prefix.
proof fn lemma_chunk_take_exit(s: Seq<StagedBody>, target: int, k: int, used: int)
    requires
        s.len() > 0,
        1 <= k <= s.len(),
        s[0].data@.len() <= target ==> k + chunk_take(s.skip(k), target - used) == chunk_take(
            s,
            target,
        ) && used <= target,
        s[0].data@.len() > target ==> k == 1,
        k < s.len() ==> used + s[k].data@.len() > target,
    ensures
        k == chunk_take_total(s, target),
{
    if s[0].data@.len() <= target {
        if k < s.len() {
            assert(s.skip(k)[0] == s[k]);
            assert(chunk_take(s.skip(k), target - used) == 0);
        } else {
            assert(s.skip(k) =~= Seq::<StagedBody>::empty());
        }
        assert(chunk_take(s, target) == k);
    } else {
        assert(chunk_take(s, target) == 0);
    }
}

/// Dropping a prefix of rows whose ids are all different from `id` does not
/// change the lookup of `id`.
proof fn lemma_staged_lookup_skip(s: Seq<StagedBody>, k: int, id: u64)
    requires
        0 <= k <= s.len(),
        forall|a: int| 0 <= a < k ==> (#[trigger] s[a].message_index_id) != id,
    ensures
        staged_lookup(s.skip(k), id) == staged_lookup(s, id),
    decreases k,
{
    if k == 0 {
        assert(s.skip(0) =~= s);
    } else {
        assert(s[0].message_index_id != id);
        assert(s.drop_first().skip(k - 1) =~= s.skip(k));
        lemma_staged_lookup_skip(s.drop_first(), k - 1, id);
    }
}

/// Committing one compaction pass — appending the new chunk, pointing the
/// index rows of its range at it, and deleting the drained staged rows —
/// keeps the store well-formed and leaves its abstract view unchanged.
proof fn lemma_compress_commit(pre: StoreData, post: StoreData, k: int, slots: Seq<Seq<u8>>)
    requires
        store_wf(pre),
        pre.staged@.len() > 0,
        1 <= k <= pre.staged@.len(),
        post.chunk_size_target == pre.chunk_size_target,
        post.chunks@.len() == pre.chunks@.len() + 1,
        post.chunks@.drop_last() == pre.chunks@,
        pre.chunks@.len() + 1 <= u64::MAX,
        post.chunks@.last().chunk_id == pre.chunks@.len() + 1,
        post.chunks@.last().start_message_index_id == pre.staged@[0].message_index_id,
        post.chunks@.last().end_message_index_id == pre.staged@[k - 1].message_index_id,
        post.chunks@.last().slots@ == slots,
        decompressed(post.chunks@.last().data@) == Some(frame_seq(slots)),
        slots.len() == pre.staged@[k - 1].message_index_id
            - pre.staged@[0].message_index_id + 1,
        forall|j: int| 0 <= j < slots.len() ==> is_frame(#[trigger] cobs_of(slots[j])),
        forall|j: int| 0 <= j < slots.len() ==> slots[j] == slot_expected(
            pre.staged@,
            (pre.staged@[0].message_index_id + j) as u64,
        ),
        post.index@.len() == pre.index@.len(),
        forall|i: int|
            0 <= i < pre.index@.len() && !(pre.staged@[0].message_index_id - 1 <= i
                < pre.staged@[k - 1].message_index_id) ==> (#[trigger] post.index@[i])
                == pre.index@[i],
        forall|i: int|
            pre.staged@[0].message_index_id - 1 <= i < pre.staged@[k - 1].message_index_id ==> (
            #[trigger] post.index@[i]) == (EventRecord {
                chunk_id: Some((pre.chunks@.len() + 1) as u64),
                ..pre.index@[i]
            }),
        post.staged@ == pre.staged@.skip(k),
    ensures
        store_wf(post),
        entries_of(post) == entries_of(pre),
{
    let start = pre.staged@[0].message_index_id;
    let end = pre.staged@[k - 1].message_index_id;
    let cid = (pre.chunks@.len() + 1) as u64;
    let newc = post.chunks@.last();
    // where each staged id sits relative to the drained range
    assert forall|a: int| 0 <= a < k implies start <= (#[trigger] pre.staged@[a].message_index_id)
        <= end by {
        if a > 0 {
            assert(pre.staged@[0].message_index_id < pre.staged@[a].message_index_id);
        }
        if a < k - 1 {
            assert(pre.staged@[a].message_index_id < pre.staged@[k - 1].message_index_id);
        }
    }
    assert forall|a: int| k <= a < pre.staged@.len() implies (
    #[trigger] pre.staged@[a].message_index_id) > end by {
        assert(pre.staged@[k - 1].message_index_id <= pre.staged@[a].message_index_id);
    }
    // old chunks end strictly below the drained range
    assert forall|c: int| 0 <= c < pre.chunks@.len() implies (
    #[trigger] pre.chunks@[c].end_message_index_id) < start by {
        assert(pre.staged@[0].message_index_id > pre.chunks@[c].end_message_index_id);
    }
    assert forall|c: int| 0 <= c < pre.chunks@.len() implies (#[trigger] post.chunks@[c])
        == pre.chunks@[c] by {
        assert(post.chunks@.drop_last()[c] == post.chunks@[c]);
    }
    assert(1 <= start <= end <= pre.index@.len());
    // --- well-formedness of the new state ---
    assert forall|i: int| 0 <= i < post.index@.len() implies (
    #[trigger] post.index@[i].message_index_id) == i + 1 && post.index@[i].type_
        == pre.index@[i].type_ && post.index@[i].message_id == pre.index@[i].message_id
        && post.index@[i].timestamp == pre.index@[i].timestamp by {
        if start - 1 <= i < end {
            assert(post.index@[i] == (EventRecord { chunk_id: Some(cid), ..pre.index@[i] }));
        } else {
            assert(post.index@[i] == pre.index@[i]);
        }
    }
    assert(staged_sorted(post.staged@));
    assert forall|s: int| 0 <= s < post.staged@.len() implies 1 <= (
    #[trigger] post.staged@[s].message_index_id) <= post.index@.len() && (
    #[trigger] post.staged@[s].data@.len()) > 0 by {
        assert(post.staged@[s] == pre.staged@[s + k]);
    }
    assert forall|s: int| 0 <= s < post.staged@.len() implies has_body_kind(
        post.index@[(#[trigger] post.staged@[s].message_index_id) - 1].type_,
    ) && post.index@[post.staged@[s].message_index_id - 1].chunk_id is None by {
        assert(post.staged@[s] == pre.staged@[s + k]);
        let id = pre.staged@[s + k].message_index_id;
        assert(id > end);
        assert(post.index@[id - 1] == pre.index@[id - 1]);
    }
    assert forall|c: int| 0 <= c < post.chunks@.len() implies (#[trigger] post.chunks@[c].chunk_id)
        == c + 1 by {
        if c < pre.chunks@.len() {
            assert(post.chunks@[c] == pre.chunks@[c]);
        } else {
            assert(post.chunks@[c] == newc);
        }
    }
    assert(chunk_wf(newc));
    assert forall|c: int| 0 <= c < post.chunks@.len() implies chunk_wf(#[trigger] post.chunks@[c])
        && post.chunks@[c].end_message_index_id <= post.index@.len() by {
        if c < pre.chunks@.len() {
            assert(post.chunks@[c] == pre.chunks@[c]);
        } else {
            assert(post.chunks@[c] == newc);
        }
    }
    assert forall|b: int, c: int| 0 <= b < c < post.chunks@.len() implies (
    #[trigger] post.chunks@[b].end_message_index_id) < (
    #[trigger] post.chunks@[c].start_message_index_id) by {
        assert(post.chunks@[b] == pre.chunks@[b]);
        if c < pre.chunks@.len() {
            assert(post.chunks@[c] == pre.chunks@[c]);
        } else {
            assert(post.chunks@[c] == newc);
        }
    }
    assert forall|s: int, c: int|
        0 <= s < post.staged@.len() && 0 <= c < post.chunks@.len() implies (
    #[trigger] post.staged@[s].message_index_id) > (
    #[trigger] post.chunks@[c].end_message_index_id) by {
        assert(post.staged@[s] == pre.staged@[s + k]);
        if c < pre.chunks@.len() {
            assert(post.chunks@[c] == pre.chunks@[c]);
        } else {
            assert(post.chunks@[c] == newc);
        }
    }
    assert forall|i: int, c: int|
        0 <= i < post.index@.len() && 0 <= c < post.chunks@.len()
            && post.chunks@[c].start_message_index_id <= i + 1
            <= post.chunks@[c].end_message_index_id implies (#[trigger] post.index@[i].chunk_id)
        == Some((#[trigger] post.chunks@[c].chunk_id)) by {
        if c < pre.chunks@.len() {
            assert(post.chunks@[c] == pre.chunks@[c]);
            assert(i + 1 <= pre.chunks@[c].end_message_index_id);
            assert(post.index@[i] == pre.index@[i]);
        } else {
            assert(post.chunks@[c] == newc);
            assert(post.index@[i] == (EventRecord { chunk_id: Some(cid), ..pre.index@[i] }));
        }
    }
    assert forall|i: int| 0 <= i < post.index@.len() implies ((
    #[trigger] post.index@[i].chunk_id) matches Some(c0) ==> 1 <= c0 <= post.chunks@.len()
        && post.chunks@[c0 - 1].start_message_index_id <= i + 1
        <= post.chunks@[c0 - 1].end_message_index_id) by {
        if start - 1 <= i < end {
            assert(post.index@[i] == (EventRecord { chunk_id: Some(cid), ..pre.index@[i] }));
            assert(post.chunks@[cid - 1] == newc);
        } else {
            assert(post.index@[i] == pre.index@[i]);
            if pre.index@[i].chunk_id is Some {
                let c0 = pre.index@[i].chunk_id->Some_0;
                assert(post.chunks@[c0 - 1] == pre.chunks@[c0 - 1]);
            }
        }
    }
    assert(store_wf(post));
    // --- the abstract view is unchanged ---
    assert forall|i: int| 0 <= i < pre.index@.len() implies entry_at(post, i) == entry_at(
        pre,
        i,
    ) by {
        let id = pre.index@[i].message_index_id;
        assert(id == i + 1);
        if !has_body_kind(pre.index@[i].type_) {
        } else if start - 1 <= i < end {
            // drained into the new chunk: its slot holds exactly what staging held
            assert(post.index@[i] == (EventRecord { chunk_id: Some(cid), ..pre.index@[i] }));
            assert(pre.index@[i].chunk_id is None) by {
                match pre.index@[i].chunk_id {
                    Some(c0) => {
                        assert(pre.chunks@[c0 - 1].end_message_index_id < start);
                        assert(i + 1 <= pre.chunks@[c0 - 1].end_message_index_id);
                    },
                    None => {},
                }
            }
            assert(post.chunks@[cid - 1] == newc);
            let j = id - start;
            assert(0 <= j < slots.len());
            assert(slots[j] == slot_expected(pre.staged@, (start + j) as u64));
            assert((start + j) as u64 == id);
            lemma_staged_lookup_nonempty(pre.staged@, id);
            assert(body_at(post, i) == body_at(pre, i));
        } else {
            assert(post.index@[i] == pre.index@[i]);
            match pre.index@[i].chunk_id {
                Some(c0) => {
                    assert(post.chunks@[c0 - 1] == pre.chunks@[c0 - 1]);
                    assert(body_at(post, i) == body_at(pre, i));
                },
                None => {
                    // still staged or body-less; the drained rows all lie in
                    // [start, end], so this row's lookup is unchanged
                    if id < start {
                        lemma_staged_lookup_absent(pre.staged@, id);
                        lemma_staged_lookup_absent(post.staged@, id);
                    } else {
                        assert(id > end);
                        lemma_staged_lookup_skip(pre.staged@, k, id);
                    }
                    assert(body_at(post, i) == body_at(pre, i));
                },
            }
        }
    }
    assert(entries_of(post) =~= entries_of(pre));
}

/// No staged row has an id above the index's length, so lookups above it miss.
proof fn lemma_staged_lookup_above(s: Seq<StagedBody>, id: u64, limit: u64)
    requires
        forall|k: int| 0 <= k < s.len() ==> (#[trigger] s[k].message_index_id) <= limit,
        id > limit,
    ensures
        staged_lookup(s, id) is None,
    decreases s.len(),
{
    if s.len() > 0 {
        assert(s[0].message_index_id <= limit);
        lemma_staged_lookup_above(s.drop_first(), id, limit);
    }
}

} // verus!

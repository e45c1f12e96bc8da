//! The write-ahead log.
//!
//! ```text
//! Offset  Size  Field
//! ------  ----  -----
//! 0       4     Body length L (u32, little-endian)
//! 4       L     Body
//! 4+L     4     CRC32 of the bytes [0..4+L)
//! ```
//!
//! A body is `[u8 op][u64 id]`, followed for an insert (op 0) by the components
//! of the vector, and for an insert with metadata (op 2) by `[u32 len]`, the
//! encoded metadata and the components. A delete (op 1) has nothing more.
//!
//! Reading stops at the first entry that is cut off, fails its checksum or does
//! not parse; the log is then cut at that point.
use vstd::prelude::*;
use vstd::slice::slice_subrange;

use crate::bytes::{get_u32, get_u64, put_u32, put_u64, u32_at, u32_bytes, u32_read_back, u64_at,
    u64_bytes, u64_read_back};
use crate::checksum::{checksum, crc32};
use crate::error::ErrorView;
use crate::metadata::{ascending, listing, listing_of_pairs, pairs_map, Metadata, Pairs, ValueView};
use crate::metadata_encoding::{len_field, metadata_bytes, metadata_round_trip, pairs_fit,
    parse_metadata, parsed_metadata_is_listed};
use crate::storage::format::{put_vector, read_vector, vector_at, vector_bytes, vector_read_back};

verus! {

/// The operation that a log entry records.
#[derive(Debug, Clone, Copy, PartialEq, Eq, Structural)]
pub enum WalOp {
    /// Insert a vector.
    Insert,
    /// Delete a vector.
    Delete,
    /// Insert a vector with metadata.
    InsertMeta,
}

/// The operation that a byte of the log names.
pub open spec fn op_of(byte: u8) -> Option<WalOp> {
    if byte == 0 {
        Some(WalOp::Insert)
    } else if byte == 1 {
        Some(WalOp::Delete)
    } else if byte == 2 {
        Some(WalOp::InsertMeta)
    } else {
        None
    }
}

impl WalOp {
    /// The byte that names this operation in the log.
    pub open spec fn code(self) -> u8 {
        match self {
            WalOp::Insert => 0,
            WalOp::Delete => 1,
            WalOp::InsertMeta => 2,
        }
    }

    /// The operation that a byte of the log names, if any.
    pub fn from_u8(v: u8) -> (op: Option<Self>)
        ensures
            op == op_of(v),
    {
        match v {
            0 => Some(WalOp::Insert),
            1 => Some(WalOp::Delete),
            2 => Some(WalOp::InsertMeta),
            _ => None,
        }
    }
}

/// One operation of the log.
#[derive(Debug)]
pub struct WalEntry {
    /// The operation.
    pub op: WalOp,
    /// The vector ID it applies to.
    pub vector_id: u64,
    /// The components of the vector, for an insert.
    pub vector_data: Option<Vec<u32>>,
    /// The metadata of the vector, for an insert with metadata.
    pub metadata: Option<Metadata>,
}

/// What a log entry says.
pub struct EntryView {
    pub op: WalOp,
    pub id: u64,
    pub data: Option<Seq<u32>>,
    pub metadata: Option<Pairs>,
}

impl View for WalEntry {
    type V = EntryView;

    open spec fn view(&self) -> EntryView {
        EntryView {
            op: self.op,
            id: self.vector_id,
            data: match self.vector_data {
                Some(v) => Some(v@),
                None => None,
            },
            metadata: match self.metadata {
                Some(md) => Some(md@),
                None => None,
            },
        }
    }
}

/// The entry that inserts a vector.
pub open spec fn insert_entry(id: u64, data: Seq<u32>, metadata: Option<Pairs>) -> EntryView {
    EntryView {
        op: if metadata is Some { WalOp::InsertMeta } else { WalOp::Insert },
        id,
        data: Some(data),
        metadata,
    }
}

/// The entry that deletes a vector.
pub open spec fn delete_entry(id: u64) -> EntryView {
    EntryView { op: WalOp::Delete, id, data: None, metadata: None }
}

/// Whether an entry is one of the three kinds.
pub open spec fn entry_is_sound(e: EntryView) -> bool {
    e == delete_entry(e.id) || (e.data is Some && e == insert_entry(e.id, e.data->0, e.metadata))
}

/// The body of an entry.
pub open spec fn body_bytes(e: EntryView) -> Seq<u8> {
    seq![e.op.code()] + u64_bytes(e.id) + (match e.metadata {
        Some(pairs) => u32_bytes(len_field(metadata_bytes(pairs).len())) + metadata_bytes(pairs),
        None => Seq::empty(),
    }) + (match e.data {
        Some(v) => vector_bytes(v),
        None => Seq::empty(),
    })
}

/// A body with its length before it.
pub open spec fn prefixed(body: Seq<u8>) -> Seq<u8> {
    u32_bytes(len_field(body.len())) + body
}

/// A body as it stands in the log.
pub open spec fn framed(body: Seq<u8>) -> Seq<u8> {
    prefixed(body) + u32_bytes(crc32(prefixed(body)))
}

/// An entry as it stands in the log.
pub open spec fn entry_bytes(e: EntryView) -> Seq<u8> {
    framed(body_bytes(e))
}

/// Whether an entry is of one of the three kinds and its lengths fit their
/// fields.
pub open spec fn entry_fits(e: EntryView) -> bool {
    &&& entry_is_sound(e)
    &&& body_bytes(e).len() < 0x1_0000_0000
    &&& body_bytes(e).len() <= usize::MAX
    &&& e.metadata matches Some(pairs) ==> ascending(pairs) && pairs_fit(pairs)
}

/// The components that make up the rest of a body from `at` on, if they come
/// out even.
pub open spec fn tail_vector(body: Seq<u8>, at: int) -> Option<Seq<u32>> {
    if (body.len() - at) % 4 != 0 {
        None
    } else {
        Some(vector_at(body, at, ((body.len() - at) / 4) as nat))
    }
}

/// The entry that a body spells, if any.
pub open spec fn parse_body(body: Seq<u8>) -> Option<EntryView> {
    if body.len() < 9 {
        None
    } else {
        match op_of(body[0]) {
            None => None,
            Some(WalOp::Delete) => Some(delete_entry(u64_at(body, 1))),
            Some(WalOp::Insert) => match tail_vector(body, 9) {
                None => None,
                Some(v) => Some(insert_entry(u64_at(body, 1), v, None)),
            },
            Some(WalOp::InsertMeta) => if body.len() < 13 || 13 + u32_at(body, 9) > body.len() {
                None
            } else {
                let end = 13 + u32_at(body, 9);
                match (parse_metadata(body.subrange(13, end)), tail_vector(body, end)) {
                    (Ok(map), Some(v)) => Some(
                        insert_entry(u64_at(body, 1), v, Some(listing(map))),
                    ),
                    _ => None,
                }
            },
        }
    }
}

/// Where the body of the entry at `at` ends, if the log holds the whole entry.
pub open spec fn body_end(d: Seq<u8>, at: int) -> Option<int> {
    if at + 4 > d.len() || at + 8 + u32_at(d, at) > d.len() {
        None
    } else {
        Some(at + 4 + u32_at(d, at))
    }
}

/// The entry at `at` and where it ends, given the checksum of its length and
/// body.
pub open spec fn entry_with_sum(d: Seq<u8>, at: int, sum: u32) -> Option<(EntryView, int)> {
    match body_end(d, at) {
        None => None,
        Some(end) => if u32_at(d, end) != sum {
            None
        } else {
            match parse_body(d.subrange(at + 4, end)) {
                None => None,
                Some(e) => Some((e, end + 4)),
            }
        },
    }
}

/// The entry at `at` and where it ends, if it is whole, matches its checksum
/// and parses.
pub open spec fn entry_at(d: Seq<u8>, at: int) -> Option<(EntryView, int)> {
    match body_end(d, at) {
        None => None,
        Some(end) => entry_with_sum(d, at, crc32(d.subrange(at, end))),
    }
}

/// The entries from `at` on up to the first that is not valid, and where the
/// valid part ends.
pub open spec fn read_log(d: Seq<u8>, at: int) -> (Seq<EntryView>, int)
    decreases d.len() - at,
{
    match entry_at(d, at) {
        None => (Seq::empty(), at),
        Some((e, end)) => if end <= at {
            (Seq::empty(), at)
        } else {
            (seq![e] + read_log(d, end).0, read_log(d, end).1)
        },
    }
}

/// Whether a log is valid to its end.
pub open spec fn log_is_whole(d: Seq<u8>) -> bool {
    read_log(d, 0).1 == d.len()
}

/// The components from `at` to the end of a body.
fn read_tail(body: &[u8], at: usize) -> (data: Option<Vec<u32>>)
    requires
        at <= body.len(),
    ensures
        match data {
            Some(v) => tail_vector(body@, at as int) == Some(v@),
            None => tail_vector(body@, at as int) is None,
        },
{
    let left: usize = body.len() - at;
    if left % 4 != 0 {
        return None;
    }
    Some(read_vector(body, at, left / 4))
}

/// The entry that a body spells, if any.
pub fn parse_entry_body(body: &[u8]) -> (entry: Option<WalEntry>)
    ensures
        match entry {
            Some(e) => parse_body(body@) == Some(e@),
            None => parse_body(body@) is None,
        },
{
    if body.len() < 9 {
        return None;
    }
    let op = match WalOp::from_u8(body[0]) {
        Some(op) => op,
        None => return None,
    };
    let vector_id: u64 = get_u64(body, 1);
    match op {
        WalOp::Delete => Some(WalEntry { op, vector_id, vector_data: None, metadata: None }),
        WalOp::Insert => match read_tail(body, 9) {
            None => None,
            Some(v) => Some(WalEntry { op, vector_id, vector_data: Some(v), metadata: None }),
        },
        WalOp::InsertMeta => {
            if body.len() < 13 || get_u32(body, 9) as usize > body.len() - 13 {
                return None;
            }
            let end: usize = 13 + get_u32(body, 9) as usize;
            match Metadata::from_bytes(slice_subrange(body, 13, end)) {
                Err(_) => None,
                Ok(md) => {
                    proof {
                        use_type_invariant(&md);
                        listing_of_pairs(md@);
                    }
                    match read_tail(body, end) {
                        None => None,
                        Some(v) => Some(
                            WalEntry { op, vector_id, vector_data: Some(v), metadata: Some(md) },
                        ),
                    }
                },
            }
        },
    }
}

/// Where the body of the entry at `at` ends, if the log holds the whole entry.
pub fn entry_body_end(log: &[u8], at: usize) -> (end: Option<usize>)
    requires
        at <= log.len(),
    ensures
        match end {
            Some(end) => body_end(log@, at as int) == Some(end as int),
            None => body_end(log@, at as int) is None,
        },
{
    let left: usize = log.len() - at;
    if left < 8 {
        assert(left >= 4 ==> at + 8 + u32_at(log@, at as int) > log@.len());
        return None;
    }
    let body_len: usize = get_u32(log, at) as usize;
    if body_len > left - 8 {
        return None;
    }
    Some(at + 4 + body_len)
}

/// The entry at `at` and where it ends, given the checksum of its length and
/// body.
pub fn accept_entry(log: &[u8], at: usize, sum: u32) -> (entry: Option<(WalEntry, usize)>)
    requires
        at <= log.len(),
    ensures
        match entry {
            Some((e, end)) => entry_with_sum(log@, at as int, sum) == Some((e@, end as int)),
            None => entry_with_sum(log@, at as int, sum) is None,
        },
{
    match entry_body_end(log, at) {
        None => None,
        Some(end) => {
            if get_u32(log, end) != sum {
                return None;
            }
            match parse_entry_body(slice_subrange(log, at + 4, end)) {
                None => None,
                Some(e) => Some((e, end + 4)),
            }
        },
    }
}

fn read_entry(log: &[u8], at: usize) -> (entry: Option<(WalEntry, usize)>)
    requires
        at <= log.len(),
    ensures
        match entry {
            Some((e, end)) => entry_at(log@, at as int) == Some((e@, end as int)) && at < end
                <= log.len(),
            None => entry_at(log@, at as int) is None,
        },
{
    match entry_body_end(log, at) {
        None => None,
        Some(end) => accept_entry(log, at, checksum(slice_subrange(log, at, end))),
    }
}

/// The views of a list of entries.
pub open spec fn entry_views(entries: Seq<WalEntry>) -> Seq<EntryView> {
    Seq::new(entries.len(), |i: int| entries[i]@)
}

/// The log's buffer: entries that were appended and not yet written out.
///
/// The view is the bytes that wait.
#[derive(Debug)]
pub struct Wal {
    buffer: Vec<u8>,
}

impl View for Wal {
    type V = Seq<u8>;

    closed spec fn view(&self) -> Seq<u8> {
        self.buffer@
    }
}

impl Wal {
    /// A log to which nothing was appended yet.
    pub fn new() -> (wal: Self)
        ensures
            wal@ == Seq::<u8>::empty(),
    {
        Wal { buffer: Vec::new() }
    }

    /// Appends the insertion of a vector.
    pub fn log_insert(&mut self, vector_id: u64, data: &[u32])
        ensures
            final(self)@ == old(self)@ + entry_bytes(insert_entry(vector_id, data@, None)),
    {
        let body = Self::serialize_insert(vector_id, data);
        self.write_entry(&body);
    }

    /// Appends the insertion of a vector with metadata.
    pub fn log_insert_meta(&mut self, vector_id: u64, metadata: &Metadata, data: &[u32])
        ensures
            final(self)@ == old(self)@ + entry_bytes(
                insert_entry(vector_id, data@, Some(metadata@)),
            ),
    {
        let body = Self::serialize_insert_meta(vector_id, metadata, data);
        self.write_entry(&body);
    }

    /// Appends the deletion of a vector.
    pub fn log_delete(&mut self, vector_id: u64)
        ensures
            final(self)@ == old(self)@ + entry_bytes(delete_entry(vector_id)),
    {
        let body = Self::serialize_delete(vector_id);
        self.write_entry(&body);
    }

    /// Hands out the bytes that wait, to be written behind the log and synced.
    pub fn flush(&mut self) -> (bytes: Vec<u8>)
        ensures
            bytes@ == old(self)@,
            final(self)@ == Seq::<u8>::empty(),
    {
        let mut bytes: Vec<u8> = Vec::new();
        core::mem::swap(&mut bytes, &mut self.buffer);
        bytes
    }

    /// Reads the entries of a log up to the first that is not valid, and where
    /// the valid part ends.
    pub fn read_entries(log: &[u8]) -> (result: (Vec<WalEntry>, usize))
        ensures
            read_log(log@, 0) == (entry_views(result.0@), result.1 as int),
            result.1 <= log.len(),
    {
        let mut entries: Vec<WalEntry> = Vec::new();
        let mut valid_up_to: usize = 0;
        let ghost goal = read_log(log@, 0);
        assert(entry_views(entries@) + goal.0 =~= goal.0);
        loop
            invariant
                valid_up_to <= log.len(),
                entry_views(entries@) + read_log(log@, valid_up_to as int).0 == goal.0,
                read_log(log@, valid_up_to as int).1 == goal.1,
            ensures
                entry_at(log@, valid_up_to as int) is None,
            decreases log.len() - valid_up_to,
        {
            match read_entry(log, valid_up_to) {
                None => break,
                Some((entry, end)) => {
                    let ghost before = entries@;
                    let ghost read = entry@;
                    entries.push(entry);
                    proof {
                        assert(entry_views(entries@) =~= entry_views(before).push(read));
                        assert(entry_views(entries@) + read_log(log@, end as int).0
                            =~= entry_views(before) + read_log(log@, valid_up_to as int).0);
                    }
                    valid_up_to = end;
                },
            }
        }
        assert(entry_views(entries@) =~= goal.0);
        (entries, valid_up_to)
    }

    /// Drops the bytes that wait; the log itself is to be emptied.
    pub fn clear(&mut self)
        ensures
            final(self)@ == Seq::<u8>::empty(),
    {
        self.buffer = Vec::new();
    }

    fn write_entry(&mut self, body: &Vec<u8>)
        ensures
            final(self)@ == old(self)@ + framed(body@),
    {
        let ghost before = self@;
        let mut entry: Vec<u8> = Vec::new();
        put_u32(&mut entry, (body.len() as u64 % 0x1_0000_0000) as u32);
        entry.extend_from_slice(body.as_slice());
        assert(entry@ =~= prefixed(body@));
        let sum: u32 = checksum(entry.as_slice());
        put_u32(&mut entry, sum);
        self.buffer.extend_from_slice(entry.as_slice());
        assert(self@ =~= before + framed(body@));
    }

    fn serialize_insert(vector_id: u64, data: &[u32]) -> (body: Vec<u8>)
        ensures
            body@ == body_bytes(insert_entry(vector_id, data@, None)),
    {
        let mut buf: Vec<u8> = Vec::new();
        buf.push(0);
        put_u64(&mut buf, vector_id);
        put_vector(&mut buf, data);
        assert(buf@ =~= body_bytes(insert_entry(vector_id, data@, None)));
        buf
    }

    fn serialize_insert_meta(vector_id: u64, metadata: &Metadata, data: &[u32]) -> (body: Vec<u8>)
        ensures
            body@ == body_bytes(insert_entry(vector_id, data@, Some(metadata@))),
    {
        let mut buf: Vec<u8> = Vec::new();
        buf.push(2);
        put_u64(&mut buf, vector_id);
        let encoded = metadata.to_bytes();
        put_u32(&mut buf, (encoded.len() as u64 % 0x1_0000_0000) as u32);
        buf.extend_from_slice(encoded.as_slice());
        put_vector(&mut buf, data);
        assert(buf@ =~= body_bytes(insert_entry(vector_id, data@, Some(metadata@))));
        buf
    }

    fn serialize_delete(vector_id: u64) -> (body: Vec<u8>)
        ensures
            body@ == body_bytes(delete_entry(vector_id)),
    {
        let mut buf: Vec<u8> = Vec::new();
        buf.push(1);
        put_u64(&mut buf, vector_id);
        assert(buf@ =~= body_bytes(delete_entry(vector_id)));
        buf
    }
}

/// An entry is read back from its body.
pub proof fn body_round_trip(e: EntryView)
    requires
        entry_fits(e),
    ensures
        parse_body(body_bytes(e)) == Some(e),
{
    let b = body_bytes(e);
    assert(b.subrange(1, 9) =~= u64_bytes(e.id));
    u64_read_back(b, 1, e.id);
    if e.op == WalOp::Insert {
        let v = e.data->0;
        assert(b.subrange(9, 9 + 4 * v.len() as int) =~= vector_bytes(v));
        vector_read_back(b, 9, v);
    }
    if e.op == WalOp::InsertMeta {
        let v = e.data->0;
        let pairs = e.metadata->0;
        let m = metadata_bytes(pairs);
        let end: int = 13 + m.len() as int;
        assert(b.subrange(9, 13) =~= u32_bytes(m.len() as u32));
        u32_read_back(b, 9, m.len() as u32);
        assert(b.subrange(13, end) =~= m);
        metadata_round_trip(pairs);
        listing_of_pairs(pairs);
        assert(b.subrange(end, end + 4 * v.len() as int) =~= vector_bytes(v));
        vector_read_back(b, end, v);
    }
}

/// An entry stands in the log wherever its bytes stand.
pub proof fn entry_read_back(d: Seq<u8>, at: int, e: EntryView)
    requires
        entry_fits(e),
        0 <= at,
        at + entry_bytes(e).len() <= d.len(),
        d.subrange(at, at + entry_bytes(e).len()) == entry_bytes(e),
    ensures
        entry_at(d, at) == Some((e, at + entry_bytes(e).len())),
{
    let b = body_bytes(e);
    let whole = entry_bytes(e);
    let end = at + 4 + b.len();
    assert(d.subrange(at, at + 4) =~= whole.subrange(0, 4));
    assert(whole.subrange(0, 4) =~= u32_bytes(b.len() as u32));
    u32_read_back(d, at, b.len() as u32);
    assert(d.subrange(at, end) =~= whole.subrange(0, 4 + b.len() as int));
    assert(whole.subrange(0, 4 + b.len() as int) =~= prefixed(b));
    assert(d.subrange(end, end + 4) =~= whole.subrange(4 + b.len() as int, whole.len() as int));
    assert(whole.subrange(4 + b.len() as int, whole.len() as int) =~= u32_bytes(crc32(prefixed(b))));
    u32_read_back(d, end, crc32(prefixed(b)));
    assert(d.subrange(at + 4, end) =~= whole.subrange(4, 4 + b.len() as int));
    assert(whole.subrange(4, 4 + b.len() as int) =~= b);
    body_round_trip(e);
}

/// Whether every entry is an insertion with its vector or a deletion, with its
/// metadata in order.
pub open spec fn entries_sound(entries: Seq<EntryView>) -> bool {
    forall|i: int|
        0 <= i < entries.len() ==> {
            let e = #[trigger] entries[i];
            &&& e.op == WalOp::Delete || e.data is Some
            &&& e.metadata matches Some(pairs) ==> ascending(pairs)
        }
}

/// Whatever entries a log holds are sound, and no more than its bytes.
pub proof fn read_entries_are_sound(d: Seq<u8>, at: int)
    requires
        0 <= at <= d.len(),
    ensures
        entries_sound(read_log(d, at).0),
        read_log(d, at).0.len() <= d.len() - at,
    decreases d.len() - at,
{
    if let Some((e, end)) = entry_at(d, at) {
        if end > at {
            let rest = read_log(d, end).0;
            read_entries_are_sound(d, end);
            let body = d.subrange(at + 4, end - 4);
            parsed_metadata_is_listed(body.subrange(13, 13 + u32_at(body, 9)));
            assert forall|i: int| 0 <= i < read_log(d, at).0.len() implies {
                let f = #[trigger] read_log(d, at).0[i];
                &&& f.op == WalOp::Delete || f.data is Some
                &&& f.metadata matches Some(pairs) ==> ascending(pairs)
            } by {
                if i > 0 {
                    assert(read_log(d, at).0[i] == rest[i - 1]);
                }
            }
        }
    }
}

/// The valid part of a log ends within it.
pub proof fn read_log_bounds(d: Seq<u8>, at: int)
    requires
        0 <= at <= d.len(),
    ensures
        at <= read_log(d, at).1 <= d.len(),
    decreases d.len() - at,
{
    if let Some((e, end)) = entry_at(d, at) {
        if end > at {
            read_log_bounds(d, end);
        }
    }
}

/// A valid entry reads the same whatever follows it.
pub proof fn entry_is_local(d: Seq<u8>, t: Seq<u8>, at: int)
    requires
        0 <= at,
        entry_at(d, at) is Some,
    ensures
        entry_at(d + t, at) == entry_at(d, at),
        at < (entry_at(d, at)->0).1 <= d.len(),
{
    reveal(u32_at);
    let end = body_end(d, at)->0;
    assert((d + t).subrange(at, end) =~= d.subrange(at, end));
    assert((d + t).subrange(at + 4, end) =~= d.subrange(at + 4, end));
}

/// What follows the entries of a log does not change them: the valid part of a
/// log followed by anything starts with the log's own entries.
pub proof fn log_extends(d: Seq<u8>, t: Seq<u8>, at: int)
    requires
        0 <= at <= d.len(),
        read_log(d, at).1 == d.len(),
    ensures
        read_log(d + t, at) == (
            read_log(d, at).0 + read_log(d + t, d.len() as int).0,
            read_log(d + t, d.len() as int).1,
        ),
    decreases d.len() - at,
{
    match entry_at(d, at) {
        None => {
            assert(read_log(d, at).0 + read_log(d + t, d.len() as int).0 =~= read_log(d + t, at).0);
        },
        Some((e, end)) => {
            entry_is_local(d, t, at);
            log_extends(d, t, end);
            assert(seq![e] + (read_log(d, end).0 + read_log(d + t, d.len() as int).0) =~= (seq![e]
                + read_log(d, end).0) + read_log(d + t, d.len() as int).0);
        },
    }
}

/// Appending an entry to a whole log adds that entry to those read from it, and
/// the log stays whole.
pub proof fn appended_entry_is_read(d: Seq<u8>, e: EntryView)
    requires
        log_is_whole(d),
        entry_fits(e),
    ensures
        read_log(d + entry_bytes(e), 0).0 == read_log(d, 0).0.push(e),
        log_is_whole(d + entry_bytes(e)),
{
    let t = entry_bytes(e);
    let all = d + t;
    log_extends(d, t, 0);
    assert(all.subrange(d.len() as int, d.len() as int + t.len()) =~= t);
    entry_read_back(all, d.len() as int, e);
    assert(body_end(all, all.len() as int) is None);
    assert(read_log(all, all.len() as int).0 =~= Seq::empty());
    assert(read_log(all, d.len() as int).0 =~= seq![e]);
    assert(read_log(d, 0).0 + seq![e] =~= read_log(d, 0).0.push(e));
}

/// An entry of which only a part was written is dropped, and nothing else: the
/// log reads as it did before.
pub proof fn torn_entry_is_dropped(d: Seq<u8>, e: EntryView, n: int)
    requires
        log_is_whole(d),
        entry_fits(e),
        0 <= n < entry_bytes(e).len(),
    ensures
        read_log(d + entry_bytes(e).take(n), 0) == read_log(d, 0),
{
    let t = entry_bytes(e).take(n);
    let all = d + t;
    let at = d.len() as int;
    log_extends(d, t, 0);
    if n >= 4 {
        let b = body_bytes(e);
        assert(all.subrange(at, at + 4) =~= entry_bytes(e).subrange(0, 4));
        assert(entry_bytes(e).subrange(0, 4) =~= u32_bytes(b.len() as u32));
        u32_read_back(all, at, b.len() as u32);
    }
    assert(entry_at(all, at) is None);
    assert(read_log(d, 0).0 + read_log(all, at).0 =~= read_log(d, 0).0);
}

/// A tail whose first entry is not valid costs no entry before it.
pub proof fn corrupt_tail_is_dropped(d: Seq<u8>, t: Seq<u8>)
    requires
        log_is_whole(d),
        entry_at(d + t, d.len() as int) is None,
    ensures
        read_log(d + t, 0) == read_log(d, 0),
{
    log_extends(d, t, 0);
    assert(read_log(d, 0).0 + read_log(d + t, d.len() as int).0 =~= read_log(d, 0).0);
}

proof fn cut_log_from(d: Seq<u8>, at: int)
    requires
        0 <= at <= d.len(),
    ensures
        read_log(d.take(read_log(d, at).1), at) == read_log(d, at),
    decreases d.len() - at,
{
    let v = read_log(d, at).1;
    let c = d.take(v);
    read_log_bounds(d, at);
    match entry_at(d, at) {
        None => {
            assert(body_end(c, at) is None);
        },
        Some((e, end)) => {
            reveal(u32_at);
            assert(end > at);
            read_log_bounds(d, end);
            assert(c.subrange(at, end - 4) =~= d.subrange(at, end - 4));
            assert(c.subrange(at + 4, end - 4) =~= d.subrange(at + 4, end - 4));
            assert(entry_at(c, at) == entry_at(d, at));
            cut_log_from(d, end);
        },
    }
}

/// A log that is cut where its valid part ends reads as before, and is whole.
pub proof fn cut_log_is_whole(d: Seq<u8>)
    ensures
        read_log(d.take(read_log(d, 0).1), 0) == read_log(d, 0),
        log_is_whole(d.take(read_log(d, 0).1)),
{
    read_log_bounds(d, 0);
    cut_log_from(d, 0);
}

proof fn opening_of_body(e: EntryView)
    ensures
        body_bytes(e).len() >= 9,
        body_bytes(e)[0] == e.op.code(),
        body_bytes(e).subrange(1, 9) == u64_bytes(e.id),
{
    assert(body_bytes(e).subrange(1, 9) =~= u64_bytes(e.id));
}

proof fn pieces_of_frame(d: Seq<u8>, first: Seq<u8>, body: Seq<u8>, sum: Seq<u8>)
    requires
        d == first + body + sum,
        first.len() == 4,
        sum.len() == 4,
    ensures
        d.len() == body.len() + 8,
        d.subrange(0, 4) == first,
        d.subrange(4, d.len() - 4) == body,
        d.subrange(0, d.len() - 4) == first + body,
        d.subrange(d.len() - 4, d.len() as int) == sum,
{
    assert(d.subrange(0, 4) =~= first);
    assert(d.subrange(4, d.len() - 4) =~= body);
    assert(d.subrange(0, d.len() - 4) =~= first + body);
    assert(d.subrange(d.len() - 4, d.len() as int) =~= sum);
}

/// Where each field of an entry stands in the log: the length of its body in four
/// bytes; then the body, which opens with the operation (0 for an insertion, 1 for a
/// deletion, 2 for an insertion with metadata) and the ID in eight bytes; then the
/// checksum of all of it.
pub proof fn entry_layout(e: EntryView)
    requires
        entry_fits(e),
    ensures
        ({
            let d = entry_bytes(e);
            let n = d.len() as int;
            &&& n >= 17
            &&& u32_at(d, 0) == n - 8
            &&& d[4] == (match e.op {
                WalOp::Insert => 0u8,
                WalOp::Delete => 1u8,
                WalOp::InsertMeta => 2u8,
            })
            &&& u64_at(d, 5) == e.id
            &&& u32_at(d, n - 4) == crc32(d.subrange(0, n - 4))
        }),
{
    let b = body_bytes(e);
    let d = entry_bytes(e);
    let n = d.len() as int;
    opening_of_body(e);
    let first = u32_bytes(len_field(b.len()));
    let sum = u32_bytes(crc32(prefixed(b)));
    pieces_of_frame(d, first, b, sum);
    u32_read_back(d, 0, b.len() as u32);
    assert(d[4] == d.subrange(4, n - 4)[0]);
    assert(d.subrange(5, 13) =~= d.subrange(4, n - 4).subrange(1, 9));
    u64_read_back(d, 5, e.id);
    u32_read_back(d, n - 4, crc32(prefixed(b)));
}

/// What follows the ID in an entry without metadata: nothing for a deletion, and the
/// components for an insertion.
pub proof fn plain_entry_layout(e: EntryView)
    requires
        entry_fits(e),
        e.op != WalOp::InsertMeta,
    ensures
        e.op == WalOp::Delete ==> body_bytes(e).len() == 9,
        e.op == WalOp::Insert ==> body_bytes(e).len() == 9 + 4 * e.data->0.len() && vector_at(
            body_bytes(e),
            9,
            e.data->0.len(),
        ) == e.data->0,
{
    let b = body_bytes(e);
    if e.op == WalOp::Insert {
        let v = e.data->0;
        assert(b.subrange(9, 9 + 4 * v.len() as int) =~= vector_bytes(v));
        vector_read_back(b, 9, v);
    }
}

proof fn pieces_of_body(b: Seq<u8>, first: Seq<u8>, len: Seq<u8>, blob: Seq<u8>, rest: Seq<u8>)
    requires
        b == first + (len + blob) + rest,
        first.len() == 9,
        len.len() == 4,
    ensures
        b.len() == 13 + blob.len() + rest.len(),
        b.subrange(9, 13) == len,
        b.subrange(13, 13 + blob.len() as int) == blob,
        b.subrange(13 + blob.len() as int, b.len() as int) == rest,
{
    assert(b.subrange(9, 13) =~= len);
    assert(b.subrange(13, 13 + blob.len() as int) =~= blob);
    assert(b.subrange(13 + blob.len() as int, b.len() as int) =~= rest);
}

/// What follows the ID in an entry with metadata: the length of the metadata, the
/// metadata and the components.
pub proof fn meta_entry_layout(e: EntryView)
    requires
        entry_fits(e),
        e.op == WalOp::InsertMeta,
    ensures
        ({
            let b = body_bytes(e);
            let m = u32_at(b, 9) as int;
            let v = e.data->0;
            &&& b.len() == 13 + m + 4 * v.len()
            &&& parse_metadata(b.subrange(13, 13 + m)) == Ok::<
                Map<Seq<char>, ValueView>,
                ErrorView,
            >(pairs_map(e.metadata->0))
            &&& vector_at(b, 13 + m, v.len()) == v
        }),
{
    let v = e.data->0;
    let pairs = e.metadata->0;
    let blob = metadata_bytes(pairs);
    let b = body_bytes(e);
    let first = seq![e.op.code()] + u64_bytes(e.id);
    pieces_of_body(b, first, u32_bytes(len_field(blob.len())), blob, vector_bytes(v));
    u32_read_back(b, 9, blob.len() as u32);
    metadata_round_trip(pairs);
    vector_read_back(b, 13 + blob.len() as int, v);
}

/// An entry is read only where all of it is there and its checksum is right.
pub proof fn accepted_entry_checks_out(d: Seq<u8>, at: int)
    requires
        0 <= at,
        entry_at(d, at) is Some,
    ensures
        ({
            let (e, end) = entry_at(d, at)->0;
            &&& end == at + 8 + u32_at(d, at)
            &&& end <= d.len()
            &&& end >= at + 17
            &&& u32_at(d, end - 4) == crc32(d.subrange(at, end - 4))
            &&& e.id == u64_at(d.subrange(at + 4, end - 4), 1)
            &&& e.op == WalOp::Insert <==> d[at + 4] == 0
            &&& e.op == WalOp::Delete <==> d[at + 4] == 1
            &&& e.op == WalOp::InsertMeta <==> d[at + 4] == 2
            &&& d[at + 4] <= 2
            &&& e.data is Some <==> e.op != WalOp::Delete
            &&& e.metadata is Some <==> e.op == WalOp::InsertMeta
        }),
{
    let end = body_end(d, at)->0;
    let body = d.subrange(at + 4, end);
    assert(body[0] == d[at + 4]);
}

} // verus!

//! The vector store: vectors with stable IDs, their metadata and tombstones.
//!
//! A change is first appended to the log ([`VectorStore::stage_insert`],
//! [`VectorStore::stage_delete`]) and, once the log is on disk, applied
//! ([`VectorStore::insert_raw`], [`VectorStore::apply_delete`]). Opening a store
//! reads the vector file and the metadata snapshot of the last checkpoint and
//! replays the log over them.
use std::collections::HashSet;

use vstd::prelude::*;
use vstd::std_specs::hash::*;
use vstd::string::*;

use crate::distance::Metric;
use crate::error::{ErrorView, QuiverError};
use crate::metadata::{ascending, Metadata, Pairs};
use crate::metadata_encoding::len_field;
use crate::storage::format::{file_bytes, ids_ascend, parse_file, parse_file_bytes,
    parsed_ids_ascend, put_record, read_vector, record_at, record_at_order, record_at_step,
    record_bytes, record_len, records_bytes, stored_vectors, vector_start, Layout,
    ParsedFile, VECTOR_ID_SIZE};
use crate::storage::header::{supported, FileHeader, FORMAT_VERSION, HEADER_SIZE,
    LEGACY_FORMAT_VERSION};
use crate::storage::snapshot::{any_some, apply_meta_snapshot, apply_snapshot, clone_slot,
    count_some, find_slot, serialize_meta_snapshot, slot_of, slot_view, slot_views,
    snapshot_bytes};
use crate::storage::wal::{delete_entry, entry_bytes, entry_views, insert_entry, read_log,
    EntryView, Wal, WalEntry, WalOp};
use crate::text::{decimal, phrase2};

verus! {

/// What a store holds.
pub struct StoreView {
    pub header: FileHeader,
    /// The vector ID of every slot.
    pub ids: Seq<u64>,
    /// The components of the vector of every slot.
    pub vectors: Seq<Seq<u32>>,
    /// The metadata of every slot.
    pub metadata: Seq<Option<Pairs>>,
    /// The vector IDs that were deleted.
    pub deleted: Set<u64>,
}

impl StoreView {
    /// Every slot has an ID, a vector of the store's dimension and perhaps
    /// metadata; the IDs ascend and none exceeds the largest that was assigned.
    pub open spec fn wf(self) -> bool {
        &&& supported(self.header.version)
        &&& self.header.vector_count == self.ids.len()
        &&& self.vectors.len() == self.ids.len()
        &&& self.metadata.len() == self.ids.len()
        &&& forall|i: int|
            0 <= i < self.vectors.len() ==> (#[trigger] self.vectors[i]).len()
                == self.header.dimension
        &&& forall|i: int|
            0 <= i < self.metadata.len() ==> (#[trigger] self.metadata[i] matches Some(
                pairs,
            ) ==> ascending(pairs))
        &&& ids_ascend(self.ids, self.header.max_vector_id)
    }

    /// An empty store.
    pub open spec fn empty(dimension: u32, metric: Metric) -> StoreView {
        StoreView {
            header: FileHeader {
                version: FORMAT_VERSION,
                metric,
                dimension,
                vector_count: 0,
                max_vector_id: 0,
            },
            ids: Seq::empty(),
            vectors: Seq::empty(),
            metadata: Seq::empty(),
            deleted: Set::empty(),
        }
    }

    /// The store with one more vector. A store with metadata is of the current
    /// format.
    pub open spec fn inserted(self, id: u64, data: Seq<u32>, metadata: Option<Pairs>) -> StoreView {
        StoreView {
            header: FileHeader {
                version: if metadata is Some { FORMAT_VERSION } else { self.header.version },
                vector_count: (self.header.vector_count + 1) as u64,
                max_vector_id: if id > self.header.max_vector_id {
                    id
                } else {
                    self.header.max_vector_id
                },
                ..self.header
            },
            ids: self.ids.push(id),
            vectors: self.vectors.push(data),
            metadata: self.metadata.push(metadata),
            ..self
        }
    }

    /// The store with one more tombstone.
    pub open spec fn erased(self, id: u64) -> StoreView {
        StoreView { deleted: self.deleted.insert(id), ..self }
    }

    /// Whether the vector with this ID is there and not deleted.
    pub open spec fn is_live(self, id: u64) -> bool {
        self.ids.contains(id) && !self.deleted.contains(id)
    }

    /// The first `n` vectors of a batch inserted one after the other.
    pub open spec fn batch_inserted(
        self,
        batch: Seq<Seq<u32>>,
        metadata: Seq<Option<Pairs>>,
        n: nat,
    ) -> StoreView
        decreases n,
    {
        if n == 0 {
            self
        } else {
            self.batch_inserted(batch, metadata, (n - 1) as nat).inserted(
                (self.header.max_vector_id + n) as u64,
                batch[n - 1],
                metadata[n - 1],
            )
        }
    }

    /// The slots below `n` whose vectors are not deleted.
    pub open spec fn live_slots(self, n: nat) -> Seq<int>
        decreases n,
    {
        if n == 0 {
            Seq::empty()
        } else if self.deleted.contains(self.ids[n - 1]) {
            self.live_slots((n - 1) as nat)
        } else {
            self.live_slots((n - 1) as nat).push(n - 1)
        }
    }

    /// The store rewritten with its live vectors alone, in the same order and
    /// with the same IDs and metadata. IDs go on from where they were.
    pub open spec fn compacted(self) -> StoreView {
        let live = self.live_slots(self.ids.len());
        StoreView {
            header: FileHeader {
                version: FORMAT_VERSION,
                metric: self.header.metric,
                dimension: self.header.dimension,
                vector_count: live.len() as u64,
                max_vector_id: self.header.max_vector_id,
            },
            ids: Seq::new(live.len(), |i: int| self.ids[live[i]]),
            vectors: Seq::new(live.len(), |i: int| self.vectors[live[i]]),
            metadata: Seq::new(live.len(), |i: int| self.metadata[live[i]]),
            deleted: Set::empty(),
        }
    }

    /// The store after one entry of the log. A vector is inserted when its ID
    /// is new; metadata is filled in where the vector has none; a deletion
    /// leaves a tombstone.
    pub open spec fn step(self, e: EntryView) -> Result<StoreView, ErrorView> {
        if e.op == WalOp::Delete {
            Ok(self.erased(e.id))
        } else if e.id > self.header.max_vector_id && e.data is Some {
            if e.data->0.len() != self.header.dimension {
                Err(ErrorView::DimensionMismatch {
                    expected: self.header.dimension,
                    actual: len_field(e.data->0.len()),
                })
            } else {
                Ok(self.inserted(e.id, e.data->0, e.metadata))
            }
        } else if e.metadata is Some && self.lacks_metadata(e.id) {
            Ok(StoreView {
                metadata: self.metadata.update(self.ids.index_of(e.id), e.metadata),
                ..self
            })
        } else {
            Ok(self)
        }
    }

    /// Whether the vector with this ID is there, without metadata.
    pub open spec fn lacks_metadata(self, id: u64) -> bool {
        self.ids.contains(id) && self.metadata[self.ids.index_of(id)] is None
    }

    /// Whether an entry of the log brings back something that the store lacks.
    pub open spec fn step_recovers(self, e: EntryView) -> bool {
        e.op != WalOp::Delete && ((e.id > self.header.max_vector_id && e.data is Some) || (
        e.metadata is Some && self.lacks_metadata(e.id)))
    }

    /// The store after all entries of a log.
    pub open spec fn replay(self, entries: Seq<EntryView>) -> Result<StoreView, ErrorView>
        decreases entries.len(),
    {
        if entries.len() == 0 {
            Ok(self)
        } else {
            match self.replay(entries.drop_last()) {
                Err(e) => Err(e),
                Ok(s) => s.step(entries.last()),
            }
        }
    }

    /// Whether the entries of a log bring back something that the store lacks.
    pub open spec fn recovers(self, entries: Seq<EntryView>) -> bool
        decreases entries.len(),
    {
        if entries.len() == 0 {
            false
        } else {
            ||| self.recovers(entries.drop_last())
            ||| self.replay(entries.drop_last()) matches Ok(s) && s.step_recovers(entries.last())
        }
    }
}

/// No metadata in any of `n` slots.
pub open spec fn no_metadata(n: nat) -> Seq<Option<Pairs>> {
    Seq::new(n, |i: int| None::<Pairs>)
}

/// The metadata that a snapshot, if there is one and it is valid, gives the
/// vectors of a file.
pub open spec fn checkpointed_metadata(layout: Layout, meta: Option<Seq<u8>>) -> Seq<
    Option<Pairs>,
> {
    match meta {
        None => no_metadata(layout.ids.len()),
        Some(m) => match apply_snapshot(
            m,
            layout.ids,
            layout.header.max_vector_id,
            no_metadata(layout.ids.len()),
        ) {
            Ok(slots) => slots,
            Err(_) => no_metadata(layout.ids.len()),
        },
    }
}

/// The store of the last checkpoint: a valid vector file and perhaps a snapshot.
pub open spec fn checkpoint(data: Seq<u8>, layout: Layout, meta: Option<Seq<u8>>) -> StoreView {
    StoreView {
        header: layout.header,
        ids: layout.ids,
        vectors: stored_vectors(data, layout),
        metadata: checkpointed_metadata(layout, meta),
        deleted: Set::empty(),
    }
}

/// The store that a vector file, a log and perhaps a snapshot hold, or what is
/// wrong with them.
pub open spec fn recover(data: Seq<u8>, wal: Seq<u8>, meta: Option<Seq<u8>>) -> Result<
    StoreView,
    ErrorView,
> {
    match parse_file(data) {
        Err(e) => Err(e),
        Ok(layout) => checkpoint(data, layout, meta).replay(read_log(wal, 0).0),
    }
}

/// The log of the first `n` vectors of a batch.
pub open spec fn batch_log(
    max: u64,
    batch: Seq<Seq<u32>>,
    metadata: Seq<Option<Pairs>>,
    n: nat,
) -> Seq<u8>
    decreases n,
{
    if n == 0 {
        Seq::empty()
    } else {
        batch_log(max, batch, metadata, (n - 1) as nat) + entry_bytes(
            insert_entry((max + n) as u64, batch[n - 1], metadata[n - 1]),
        )
    }
}

/// The views of a list of vectors.
pub open spec fn vector_views(vectors: Seq<Vec<u32>>) -> Seq<Seq<u32>> {
    Seq::new(vectors.len(), |i: int| vectors[i]@)
}

/// The views of a batch of vectors.
pub open spec fn batch_views(batch: Seq<&[u32]>) -> Seq<Seq<u32>> {
    Seq::new(batch.len(), |i: int| batch[i]@)
}

/// Whether the vectors of a batch below `n` have this dimension.
pub open spec fn dimensions_match(batch: Seq<Seq<u32>>, dimension: u32, n: int) -> bool {
    forall|i: int| 0 <= i < n ==> (#[trigger] batch[i]).len() == dimension
}

/// The bytes of a file that may be missing.
pub open spec fn bytes_view(bytes: Option<&[u8]>) -> Option<Seq<u8>> {
    match bytes {
        Some(b) => Some(b@),
        None => None,
    }
}

/// A store as it was opened.
pub struct Opened {
    pub store: VectorStore,
    /// Where the valid part of the log ends; the log is to be cut there.
    pub valid_up_to: usize,
    /// Whether the log brought back something that the checkpoint lacked, so
    /// that the store is to be checkpointed anew.
    pub recovered: bool,
}

/// Vectors with stable IDs, their metadata and tombstones, and the log entries
/// that wait to be written.
#[derive(Debug)]
pub struct VectorStore {
    header: FileHeader,
    wal: Wal,
    deleted_ids: HashSet<u64>,
    vector_ids: Vec<u64>,
    vectors: Vec<Vec<u32>>,
    metadata: Vec<Option<Metadata>>,
}

impl View for VectorStore {
    type V = StoreView;

    closed spec fn view(&self) -> StoreView {
        StoreView {
            header: self.header,
            ids: self.vector_ids@,
            vectors: vector_views(self.vectors@),
            metadata: slot_views(self.metadata@),
            deleted: self.deleted_ids@,
        }
    }
}

/// A copy of a vector.
pub fn copy_vector(data: &[u32]) -> (copy: Vec<u32>)
    ensures
        copy@ == data@,
{
    let mut copy: Vec<u32> = Vec::with_capacity(data.len());
    copy.extend_from_slice(data);
    assert(copy@ =~= data@);
    copy
}

fn dimension_error(expected: u32, len: usize) -> (e: QuiverError)
    ensures
        e@ == (ErrorView::DimensionMismatch { expected, actual: len_field(len as nat) }),
{
    QuiverError::DimensionMismatch { expected, actual: (len as u64 % 0x1_0000_0000) as u32 }
}

proof fn inserted_wf(s: StoreView, id: u64, data: Seq<u32>, metadata: Option<Pairs>)
    requires
        s.wf(),
        id > s.header.max_vector_id,
        data.len() == s.header.dimension,
        s.ids.len() < u64::MAX,
        metadata matches Some(pairs) ==> ascending(pairs),
    ensures
        s.inserted(id, data, metadata).wf(),
{
    let t = s.inserted(id, data, metadata);
    assert forall|i: int, j: int| 0 <= i < j < t.ids.len() implies t.ids[i] < t.ids[j] by {
        assert(s.ids[i] <= s.header.max_vector_id);
    }
}

impl VectorStore {
    /// The store is well formed.
    pub open spec fn wf(&self) -> bool {
        self@.wf()
    }

    /// The log entries that wait to be written.
    pub closed spec fn pending(&self) -> Seq<u8> {
        self.wal@
    }

    /// A new, empty store.
    pub fn create(dimension: u32, metric: Metric) -> (store: Self)
        ensures
            store.wf(),
            store@ == StoreView::empty(dimension, metric),
            store.pending() == Seq::<u8>::empty(),
    {
        broadcast use group_hash_axioms;

        let store = Self {
            header: FileHeader::new(dimension, metric),
            wal: Wal::new(),
            deleted_ids: HashSet::new(),
            vector_ids: Vec::new(),
            vectors: Vec::new(),
            metadata: Vec::new(),
        };
        proof {
            assert(store@.vectors =~= Seq::empty());
            assert(store@.metadata =~= Seq::empty());
            assert(store@.ids =~= Seq::empty());
            assert(store@.deleted =~= Set::empty());
        }
        store
    }

    /// Opens the store that a vector file, a log and perhaps a metadata snapshot
    /// hold.
    ///
    /// A snapshot that is missing or invalid is passed over: the log carries the
    /// metadata of every vector inserted since the last compaction. Replay
    /// inserts the vectors whose IDs are above the checkpoint's, so to replay a
    /// log twice changes nothing.
    pub fn open(data: &[u8], wal: &[u8], meta: Option<&[u8]>) -> (result: Result<
        Opened,
        QuiverError,
    >)
        ensures
            match result {
                Ok(opened) => {
                    &&& recover(data@, wal@, bytes_view(meta)) == Ok::<StoreView, ErrorView>(
                        opened.store@,
                    )
                    &&& opened.store.wf()
                    &&& opened.store.pending() == Seq::<u8>::empty()
                    &&& opened.valid_up_to == read_log(wal@, 0).1
                    &&& opened.recovered == checkpoint(
                        data@,
                        parse_file(data@)->Ok_0,
                        bytes_view(meta),
                    ).recovers(read_log(wal@, 0).0)
                },
                Err(e) => recover(data@, wal@, bytes_view(meta)) == Err::<StoreView, ErrorView>(e@),
            },
    {
        let parsed = match parse_file_bytes(data) {
            Ok(parsed) => parsed,
            Err(e) => return Err(e),
        };
        let ghost layout = parsed@;
        proof {
            parsed_ids_ascend(data@);
        }
        let vectors = Self::read_vectors(data, parsed.header, parsed.record_size, parsed.vector_ids.len());
        let metadata = Self::load_meta_snapshot(meta, &parsed);
        let mut store = Self {
            header: parsed.header,
            wal: Wal::new(),
            deleted_ids: HashSet::new(),
            vector_ids: parsed.vector_ids,
            vectors,
            metadata,
        };
        let ghost base = checkpoint(data@, layout, bytes_view(meta));
        proof {
            broadcast use group_hash_axioms;

            assert(store@.vectors =~= base.vectors);
            assert(store@.metadata =~= base.metadata);
            assert(store@.deleted =~= base.deleted);
            assert(store@ == base);
            assert(store.wf());
        }
        let (entries, valid_up_to) = Wal::read_entries(wal);
        match store.replay_entries(&entries) {
            Err(e) => Err(e),
            Ok(recovered) => Ok(Opened { store, valid_up_to, recovered }),
        }
    }

    fn read_vectors(data: &[u8], header: FileHeader, record_size: usize, count: usize) -> (vectors:
        Vec<Vec<u32>>)
        requires
            record_size == record_len(header.version, header.dimension),
            record_at(record_size as int, count as int) <= data.len(),
        ensures
            vectors@.len() == count,
            forall|slot: int|
                0 <= slot < count ==> (#[trigger] vectors@[slot])@
                    == crate::storage::format::vector_at(
                    data@,
                    record_at(record_size as int, slot) + vector_start(header.version),
                    header.dimension as nat,
                ),
    {
        let start: usize = if header.version == LEGACY_FORMAT_VERSION {
            0
        } else {
            VECTOR_ID_SIZE
        };
        let mut vectors: Vec<Vec<u32>> = Vec::with_capacity(count);
        let mut at: usize = HEADER_SIZE;
        assert(record_at(record_size as int, 0) == HEADER_SIZE) by {
            assert(0 * record_size == 0);
        }
        for slot in 0..count
            invariant
                start == vector_start(header.version),
                record_size == record_len(header.version, header.dimension),
                record_at(record_size as int, count as int) <= data.len(),
                at == record_at(record_size as int, slot as int),
                vectors@.len() == slot,
                forall|i: int|
                    0 <= i < slot ==> (#[trigger] vectors@[i])@ == crate::storage::format::vector_at(
                        data@,
                        record_at(record_size as int, i) + vector_start(header.version),
                        header.dimension as nat,
                    ),
        {
            proof {
                record_at_step(record_size as int, slot as int);
                record_at_order(record_size as int, slot + 1, count as int);
            }
            vectors.push(read_vector(data, at + start, header.dimension as usize));
            at = at + record_size;
        }
        vectors
    }

    /// The metadata that a snapshot, if there is one and it is valid, gives the
    /// vectors of a file.
    fn load_meta_snapshot(meta: Option<&[u8]>, parsed: &ParsedFile) -> (slots: Vec<
        Option<Metadata>,
    >)
        requires
            ids_ascend(parsed@.ids, parsed@.header.max_vector_id),
        ensures
            slots@.len() == parsed@.ids.len(),
            slot_views(slots@) == checkpointed_metadata(parsed@, bytes_view(meta)),
            forall|i: int|
                0 <= i < slots@.len() ==> (#[trigger] slot_views(slots@)[i] matches Some(
                    pairs,
                ) ==> ascending(pairs)),
    {
        let ids = &parsed.vector_ids;
        let max_vector_id: u64 = parsed.header.max_vector_id;
        let none = without_metadata(ids.len());
        match meta {
            None => none,
            Some(m) => match apply_meta_snapshot(m, ids, max_vector_id, &none) {
                Err(_) => none,
                Ok(filled) => {
                    proof {
                        crate::storage::snapshot::applied_len(
                            m@,
                            ids@,
                            max_vector_id,
                            slot_views(none@),
                        );
                    }
                    Self::check_order(&filled);
                    filled
                },
            },
        }
    }

    /// Metadata always lists its keys in order.
    fn check_order(slots: &Vec<Option<Metadata>>)
        ensures
            forall|i: int|
                0 <= i < slots@.len() ==> (#[trigger] slot_views(slots@)[i] matches Some(
                    pairs,
                ) ==> ascending(pairs)),
    {
        for i in 0..slots.len()
            invariant
                forall|j: int|
                    0 <= j < i ==> (#[trigger] slot_views(slots@)[j] matches Some(
                        pairs,
                    ) ==> ascending(pairs)),
        {
            if let Some(md) = &slots[i] {
                proof {
                    use_type_invariant(md);
                }
                assert(slot_views(slots@)[i as int] == Some(md@));
            }
        }
    }

    /// Replays the entries of a log. Says whether they brought back something.
    fn replay_entries(&mut self, entries: &Vec<WalEntry>) -> (result: Result<bool, QuiverError>)
        requires
            old(self).wf(),
        ensures
            final(self).wf(),
            final(self).pending() == old(self).pending(),
            match result {
                Ok(recovered) => {
                    &&& old(self)@.replay(entry_views(entries@)) == Ok::<StoreView, ErrorView>(
                        final(self)@,
                    )
                    &&& recovered == old(self)@.recovers(entry_views(entries@))
                },
                Err(e) => old(self)@.replay(entry_views(entries@)) == Err::<StoreView, ErrorView>(
                    e@,
                ),
            },
    {
        let ghost base = self@;
        let ghost all = entry_views(entries@);
        let mut recovered: bool = false;
        assert(all.take(0) =~= Seq::empty());
        for i in 0..entries.len()
            invariant
                self.wf(),
                self.pending() == old(self).pending(),
                base == old(self)@,
                all == entry_views(entries@),
                base.replay(all.take(i as int)) == Ok::<StoreView, ErrorView>(self@),
                recovered == base.recovers(all.take(i as int)),
        {
            proof {
                assert(all.take(i + 1).drop_last() =~= all.take(i as int));
                assert(all.take(i + 1).last() == entries@[i as int]@);
            }
            match self.replay_entry(&entries[i]) {
                Ok(changed) => {
                    if changed {
                        recovered = true;
                    }
                },
                Err(e) => {
                    proof {
                        assert(base.replay(all.take(i + 1)) is Err);
                        replay_stays_err(base, all, i + 1);
                    }
                    return Err(e);
                },
            }
        }
        assert(all.take(all.len() as int) =~= all);
        Ok(recovered)
    }

    fn replay_entry(&mut self, entry: &WalEntry) -> (result: Result<bool, QuiverError>)
        requires
            old(self).wf(),
        ensures
            final(self).wf(),
            final(self).pending() == old(self).pending(),
            match result {
                Ok(changed) => {
                    &&& old(self)@.step(entry@) == Ok::<StoreView, ErrorView>(final(self)@)
                    &&& changed == old(self)@.step_recovers(entry@)
                },
                Err(e) => old(self)@.step(entry@) == Err::<StoreView, ErrorView>(e@),
            },
    {
        if entry.op == WalOp::Delete {
            self.apply_delete(entry.vector_id);
            return Ok(false);
        }
        if entry.vector_id > self.header.max_vector_id {
            if let Some(data) = &entry.vector_data {
                if data.len() != self.header.dimension as usize {
                    return Err(dimension_error(self.header.dimension, data.len()));
                }
                self.insert_raw(entry.vector_id, data.as_slice(), clone_slot(&entry.metadata));
                return Ok(true);
            }
        }
        if let Some(metadata) = &entry.metadata {
            if let Some(slot) = find_slot(&self.vector_ids, entry.vector_id) {
                let ghost before = self@;
                let lacks: bool = self.metadata[slot].is_none();
                assert(lacks == before.lacks_metadata(entry.vector_id));
                if lacks {
                    let copy = metadata.clone();
                    proof {
                        use_type_invariant(&copy);
                    }
                    self.metadata.set(slot, Some(copy));
                    proof {
                        assert(self@.metadata =~= before.metadata.update(
                            slot as int,
                            Some(metadata@),
                        ));
                        assert forall|i: int| 0 <= i < self@.metadata.len() implies (
                        #[trigger] self@.metadata[i] matches Some(pairs) ==> ascending(pairs)) by {
                            assert(i != slot ==> self@.metadata[i] == before.metadata[i]);
                        }
                    }
                    return Ok(true);
                }
            }
        }
        Ok(false)
    }

    /// Adds a vector under an ID above all others, without logging it.
    pub fn insert_raw(&mut self, vector_id: u64, data: &[u32], metadata: Option<Metadata>)
        requires
            old(self).wf(),
            vector_id > old(self)@.header.max_vector_id,
            data@.len() == old(self)@.header.dimension,
        ensures
            final(self).wf(),
            final(self)@ == old(self)@.inserted(vector_id, data@, slot_view(metadata)),
            final(self).pending() == old(self).pending(),
    {
        let ghost before = self@;
        let ghost pairs = slot_view(metadata);
        let has_metadata: bool = metadata.is_some();
        if let Some(md) = &metadata {
            proof {
                use_type_invariant(md);
            }
        }
        self.vector_ids.push(vector_id);
        self.vectors.push(copy_vector(data));
        self.metadata.push(metadata);
        self.header.vector_count = self.vector_ids.len() as u64;
        self.header.max_vector_id = vector_id;
        if has_metadata {
            self.header.version = FORMAT_VERSION;
        }
        proof {
            assert(self@.vectors =~= before.vectors.push(data@));
            assert(self@.metadata =~= before.metadata.push(pairs));
            assert(before.ids.len() + 1 == self.vector_ids.len());
            inserted_wf(before, vector_id, data@, pairs);
            assert(self@ == before.inserted(vector_id, data@, pairs));
        }
    }

    /// Marks a vector ID as deleted, without logging it.
    pub fn apply_delete(&mut self, vector_id: u64)
        requires
            old(self).wf(),
        ensures
            final(self).wf(),
            final(self)@ == old(self)@.erased(vector_id),
            final(self).pending() == old(self).pending(),
    {
        broadcast use group_hash_axioms;

        self.deleted_ids.insert(vector_id);
        assert(self@.deleted =~= old(self)@.deleted.insert(vector_id));
    }

    /// Checks a vector and appends its insertion to the log. Returns the ID it
    /// will have.
    pub fn stage_insert(&mut self, data: &[u32], metadata: &Option<Metadata>) -> (result: Result<
        u64,
        QuiverError,
    >)
        requires
            old(self).wf(),
            old(self)@.header.max_vector_id < u64::MAX,
        ensures
            final(self)@ == old(self)@,
            match result {
                Ok(id) => {
                    &&& data@.len() == old(self)@.header.dimension
                    &&& id == old(self)@.header.max_vector_id + 1
                    &&& final(self).pending() == old(self).pending() + entry_bytes(
                        insert_entry(id, data@, slot_view(*metadata)),
                    )
                },
                Err(e) => {
                    &&& data@.len() != old(self)@.header.dimension
                    &&& e@ == (ErrorView::DimensionMismatch {
                        expected: old(self)@.header.dimension,
                        actual: len_field(data@.len()),
                    })
                    &&& final(self).pending() == old(self).pending()
                },
            },
    {
        if data.len() != self.header.dimension as usize {
            return Err(dimension_error(self.header.dimension, data.len()));
        }
        let vector_id: u64 = self.header.max_vector_id + 1;
        match metadata {
            Some(md) => self.wal.log_insert_meta(vector_id, md, data),
            None => self.wal.log_insert(vector_id, data),
        }
        Ok(vector_id)
    }

    fn insert_inner(&mut self, data: &[u32], metadata: Option<Metadata>) -> (result: Result<
        u64,
        QuiverError,
    >)
        requires
            old(self).wf(),
            old(self)@.header.max_vector_id < u64::MAX,
        ensures
            final(self).wf(),
            inserts(old(self), final(self), data@, slot_view(metadata), result),
    {
        let vector_id: u64 = match self.stage_insert(data, &metadata) {
            Ok(id) => id,
            Err(e) => return Err(e),
        };
        self.insert_raw(vector_id, data, metadata);
        Ok(vector_id)
    }

    /// Adds a vector, and returns the ID it was given.
    pub fn insert(&mut self, data: &[u32]) -> (result: Result<u64, QuiverError>)
        requires
            old(self).wf(),
            old(self)@.header.max_vector_id < u64::MAX,
        ensures
            final(self).wf(),
            inserts(old(self), final(self), data@, None, result),
    {
        self.insert_inner(data, None)
    }

    /// Adds a vector with metadata, and returns the ID it was given.
    pub fn insert_with_metadata(&mut self, data: &[u32], metadata: Metadata) -> (result: Result<
        u64,
        QuiverError,
    >)
        requires
            old(self).wf(),
            old(self)@.header.max_vector_id < u64::MAX,
        ensures
            final(self).wf(),
            inserts(old(self), final(self), data@, Some(metadata@), result),
    {
        self.insert_inner(data, Some(metadata))
    }

    /// Checks a batch and appends its insertions to the log. Returns the IDs
    /// that its vectors will have.
    pub fn stage_batch(&mut self, batch: &[&[u32]], metadata: &[Option<Metadata>]) -> (result:
        Result<Vec<u64>, QuiverError>)
        requires
            old(self).wf(),
            batch@.len() == metadata@.len(),
            old(self)@.header.max_vector_id + batch@.len() <= u64::MAX,
        ensures
            final(self)@ == old(self)@,
            match result {
                Ok(ids) => {
                    &&& dimensions_match(
                        batch_views(batch@),
                        old(self)@.header.dimension,
                        batch@.len() as int,
                    )
                    &&& ids@ == next_ids(old(self)@.header.max_vector_id, batch@.len())
                    &&& final(self).pending() == old(self).pending() + batch_log(
                        old(self)@.header.max_vector_id,
                        batch_views(batch@),
                        slot_views(metadata@),
                        batch@.len(),
                    )
                },
                Err(e) => {
                    &&& is_first_mismatch(batch_views(batch@), old(self)@.header.dimension, e@)
                    &&& final(self).pending() == old(self).pending()
                },
            },
    {
        let ghost views = batch_views(batch@);
        let ghost metas = slot_views(metadata@);
        let dimension: u32 = self.header.dimension;
        for i in 0..batch.len()
            invariant
                self@ == old(self)@,
                self.pending() == old(self).pending(),
                dimension == self@.header.dimension,
                views == batch_views(batch@),
                dimensions_match(views, dimension, i as int),
        {
            let data = batch[i];
            assert(views[i as int] == data@);
            if data.len() != dimension as usize {
                return Err(dimension_error(dimension, data.len()));
            }
        }
        let base: u64 = self.header.max_vector_id;
        let mut ids: Vec<u64> = Vec::with_capacity(batch.len());
        let ghost pending = self.pending();
        assert(pending + batch_log(base, views, metas, 0) =~= pending);
        for i in 0..batch.len()
            invariant
                self@ == old(self)@,
                base == old(self)@.header.max_vector_id,
                base + batch@.len() <= u64::MAX,
                batch@.len() == metadata@.len(),
                views == batch_views(batch@),
                metas == slot_views(metadata@),
                pending == old(self).pending(),
                self.pending() == pending + batch_log(base, views, metas, i as nat),
                ids@ == next_ids(base, i as nat),
        {
            let data = batch[i];
            let vector_id: u64 = base + 1 + i as u64;
            let ghost so_far = self.pending();
            match &metadata[i] {
                Some(md) => self.wal.log_insert_meta(vector_id, md, data),
                None => self.wal.log_insert(vector_id, data),
            }
            ids.push(vector_id);
            proof {
                let e = insert_entry(vector_id, views[i as int], metas[i as int]);
                assert(self.pending() == so_far + entry_bytes(e));
                assert(self.pending() =~= pending + batch_log(base, views, metas, (i + 1) as nat));
                assert(ids@ =~= next_ids(base, (i + 1) as nat));
            }
        }
        Ok(ids)
    }

    fn insert_batch_inner(&mut self, batch: &[&[u32]], metadata: &[Option<Metadata>]) -> (result:
        Result<Vec<u64>, QuiverError>)
        requires
            old(self).wf(),
            batch@.len() == metadata@.len(),
            old(self)@.header.max_vector_id + batch@.len() <= u64::MAX,
        ensures
            final(self).wf(),
            inserts_batch(old(self), final(self), batch_views(batch@), slot_views(metadata@), result),
    {
        let ids = match self.stage_batch(batch, metadata) {
            Ok(ids) => ids,
            Err(e) => return Err(e),
        };
        self.insert_staged(batch, metadata, &ids);
        Ok(ids)
    }

    /// Adds the vectors of a batch whose insertions are in the log.
    pub fn insert_staged(&mut self, batch: &[&[u32]], metadata: &[Option<Metadata>], ids: &Vec<u64>)
        requires
            old(self).wf(),
            batch@.len() == metadata@.len(),
            old(self)@.header.max_vector_id + batch@.len() <= u64::MAX,
            ids@ == next_ids(old(self)@.header.max_vector_id, batch@.len()),
            dimensions_match(
                batch_views(batch@),
                old(self)@.header.dimension,
                batch@.len() as int,
            ),
        ensures
            final(self).wf(),
            final(self)@ == old(self)@.batch_inserted(
                batch_views(batch@),
                slot_views(metadata@),
                batch@.len(),
            ),
            final(self).pending() == old(self).pending(),
    {
        let ghost before = self@;
        let ghost views = batch_views(batch@);
        let ghost metas = slot_views(metadata@);
        for i in 0..batch.len()
            invariant
                self.wf(),
                before == old(self)@,
                before.header.max_vector_id + batch@.len() <= u64::MAX,
                batch@.len() == metadata@.len(),
                views == batch_views(batch@),
                metas == slot_views(metadata@),
                ids@ == next_ids(before.header.max_vector_id, batch@.len()),
                dimensions_match(views, before.header.dimension, batch@.len() as int),
                self@ == before.batch_inserted(views, metas, i as nat),
                self@.header.dimension == before.header.dimension,
                self@.header.max_vector_id == before.header.max_vector_id + i,
                self.pending() == old(self).pending(),
        {
            let data = batch[i];
            assert(views[i as int] == data@);
            assert(metas[i as int] == slot_view(metadata@[i as int]));
            self.insert_raw(ids[i], data, clone_slot(&metadata[i]));
        }
    }

    /// Adds a batch of vectors, all or none, and returns the IDs they were
    /// given.
    pub fn insert_batch(&mut self, batch: &[&[u32]]) -> (result: Result<Vec<u64>, QuiverError>)
        requires
            old(self).wf(),
            old(self)@.header.max_vector_id + batch@.len() <= u64::MAX,
        ensures
            final(self).wf(),
            inserts_batch(
                old(self),
                final(self),
                batch_views(batch@),
                no_metadata(batch@.len()),
                result,
            ),
    {
        let none = without_metadata(batch.len());
        self.insert_batch_inner(batch, none.as_slice())
    }

    /// Adds a batch of vectors, all or none, each with its entry of `metadata`,
    /// and returns the IDs they were given.
    pub fn insert_batch_with_metadata(&mut self, batch: &[&[u32]], metadata: &[Option<Metadata>]) -> (
    result: Result<Vec<u64>, QuiverError>)
        requires
            old(self).wf(),
            old(self)@.header.max_vector_id + batch@.len() <= u64::MAX,
        ensures
            final(self).wf(),
            if batch@.len() == metadata@.len() {
                inserts_batch(
                    old(self),
                    final(self),
                    batch_views(batch@),
                    slot_views(metadata@),
                    result,
                )
            } else {
                &&& result matches Err(e) && e@ == ErrorView::InvalidFormat(
                    "Batch has "@ + decimal(batch@.len()) + " vectors but "@ + decimal(
                        metadata@.len(),
                    ) + " metadata entries"@,
                )
                &&& final(self)@ == old(self)@
                &&& final(self).pending() == old(self).pending()
            },
    {
        if batch.len() != metadata.len() {
            return Err(QuiverError::InvalidFormat(phrase2(
                "Batch has ", batch.len() as u64, " vectors but ", metadata.len() as u64,
                " metadata entries")));
        }
        self.insert_batch_inner(batch, metadata)
    }

    /// Checks a deletion and appends it to the log.
    pub fn stage_delete(&mut self, vector_id: u64) -> (result: Result<(), QuiverError>)
        requires
            old(self).wf(),
        ensures
            final(self)@ == old(self)@,
            match result {
                Ok(_) => {
                    &&& old(self)@.is_live(vector_id)
                    &&& final(self).pending() == old(self).pending() + entry_bytes(
                        delete_entry(vector_id),
                    )
                },
                Err(e) => {
                    &&& !old(self)@.is_live(vector_id)
                    &&& e@ == ErrorView::NotFound(vector_id)
                    &&& final(self).pending() == old(self).pending()
                },
            },
    {
        if find_slot(&self.vector_ids, vector_id).is_none() || self.is_deleted(vector_id) {
            return Err(QuiverError::NotFound(vector_id));
        }
        self.wal.log_delete(vector_id);
        Ok(())
    }

    /// Deletes a vector: its ID gets a tombstone, which is in the log too.
    pub fn delete(&mut self, vector_id: u64) -> (result: Result<(), QuiverError>)
        requires
            old(self).wf(),
        ensures
            final(self).wf(),
            match result {
                Ok(_) => {
                    &&& old(self)@.is_live(vector_id)
                    &&& final(self)@ == old(self)@.erased(vector_id)
                    &&& final(self).pending() == old(self).pending() + entry_bytes(
                        delete_entry(vector_id),
                    )
                },
                Err(e) => {
                    &&& !old(self)@.is_live(vector_id)
                    &&& e@ == ErrorView::NotFound(vector_id)
                    &&& final(self)@ == old(self)@
                    &&& final(self).pending() == old(self).pending()
                },
            },
    {
        match self.stage_delete(vector_id) {
            Err(e) => Err(e),
            Ok(_) => {
                self.apply_delete(vector_id);
                Ok(())
            },
        }
    }

    /// Hands out the log entries that wait, to be written behind the log and
    /// synced.
    pub fn flush_wal(&mut self) -> (bytes: Vec<u8>)
        ensures
            bytes@ == old(self).pending(),
            final(self).pending() == Seq::<u8>::empty(),
            final(self)@ == old(self)@,
    {
        self.wal.flush()
    }

    /// Whether a vector ID has a tombstone.
    pub fn is_deleted(&self, vector_id: u64) -> (deleted: bool)
        ensures
            deleted == self@.deleted.contains(vector_id),
    {
        broadcast use group_hash_axioms;

        self.deleted_ids.contains(&vector_id)
    }

    /// The vector ID in a slot.
    pub fn vector_id(&self, slot: usize) -> (result: Result<u64, QuiverError>)
        ensures
            match result {
                Ok(id) => slot < self@.ids.len() && id == self@.ids[slot as int],
                Err(e) => slot >= self@.ids.len() && e@ == ErrorView::NotFound(slot as u64),
            },
    {
        if slot < self.vector_ids.len() {
            Ok(self.vector_ids[slot])
        } else {
            Err(QuiverError::NotFound(slot as u64))
        }
    }

    /// The vector ID of every slot.
    pub fn vector_ids(&self) -> (ids: &Vec<u64>)
        ensures
            ids@ == self@.ids,
    {
        &self.vector_ids
    }

    /// The slot that holds a vector ID.
    pub fn slot_for_id(&self, vector_id: u64) -> (slot: Option<usize>)
        requires
            self.wf(),
        ensures
            match slot {
                Some(s) => slot_of(self@.ids, vector_id) == Some(s as int) && s < self@.ids.len()
                    && self@.ids[s as int] == vector_id,
                None => !self@.ids.contains(vector_id),
            },
    {
        find_slot(&self.vector_ids, vector_id)
    }

    /// The metadata of the vector in a slot, if it has any.
    pub fn metadata(&self, slot: usize) -> (metadata: Option<&Metadata>)
        requires
            self.wf(),
        ensures
            match metadata {
                Some(md) => slot < self@.metadata.len() && self@.metadata[slot as int] == Some(md@),
                None => slot < self@.metadata.len() ==> self@.metadata[slot as int] is None,
            },
    {
        if slot < self.metadata.len() {
            assert(self@.metadata[slot as int] == slot_view(self.metadata@[slot as int]));
            self.metadata[slot].as_ref()
        } else {
            None
        }
    }

    /// The vector in a slot.
    pub fn get_vector(&self, slot: usize) -> (result: Result<&[u32], QuiverError>)
        requires
            self.wf(),
        ensures
            match result {
                Ok(v) => slot < self@.vectors.len() && v@ == self@.vectors[slot as int],
                Err(e) => slot >= self@.vectors.len() && e@ == ErrorView::NotFound(slot as u64),
            },
    {
        if slot >= self.vectors.len() {
            return Err(QuiverError::NotFound(slot as u64));
        }
        Ok(self.vectors[slot].as_slice())
    }

    /// The vector in a slot that is known to exist.
    pub fn get_vector_unchecked(&self, slot: usize) -> (v: &[u32])
        requires
            self.wf(),
            slot < self@.vectors.len(),
        ensures
            v@ == self@.vectors[slot as int],
            v@.len() == self@.header.dimension,
    {
        assert(self@.vectors[slot as int].len() == self@.header.dimension);
        self.vectors[slot].as_slice()
    }

    /// Number of slots, those of deleted vectors included.
    pub fn len(&self) -> (n: usize)
        ensures
            n == self@.ids.len(),
    {
        self.vector_ids.len()
    }

    /// Whether there is no slot.
    pub fn is_empty(&self) -> (r: bool)
        ensures
            r == (self@.ids.len() == 0),
    {
        self.vector_ids.len() == 0
    }

    /// Number of components of each vector.
    pub fn dimension(&self) -> (d: u32)
        ensures
            d == self@.header.dimension,
    {
        self.header.dimension
    }

    /// The distance metric.
    pub fn metric(&self) -> (m: Metric)
        ensures
            m == self@.header.metric,
    {
        self.header.metric
    }

    /// The header as the next checkpoint will have it.
    pub fn header(&self) -> (h: FileHeader)
        ensures
            h == self@.header,
    {
        self.header
    }

    /// Every slot with its vector.
    pub fn iter(&self) -> (items: Vec<(usize, &[u32])>)
        requires
            self.wf(),
        ensures
            items@.len() == self@.vectors.len(),
            forall|i: int|
                0 <= i < self@.vectors.len() ==> (#[trigger] items@[i]).0 == i && items@[i].1@
                    == self@.vectors[i],
    {
        let mut items: Vec<(usize, &[u32])> = Vec::with_capacity(self.vectors.len());
        for i in 0..self.vectors.len()
            invariant
                items@.len() == i,
                forall|j: int|
                    0 <= j < i ==> (#[trigger] items@[j]).0 == j && items@[j].1@
                        == self@.vectors[j],
        {
            items.push((i, self.vectors[i].as_slice()));
        }
        items
    }

    /// The whole vector file of this store.
    pub fn data_bytes(&self) -> (out: Vec<u8>)
        requires
            self.wf(),
        ensures
            out@ == file_bytes(self@.header, self@.ids, self@.vectors),
    {
        let mut out = self.header.to_bytes();
        let ghost head = out@;
        let ghost ids = self@.ids;
        let ghost vectors = self@.vectors;
        let version: u8 = self.header.version;
        assert(head + records_bytes(version, ids, vectors, 0) =~= head);
        for i in 0..self.vectors.len()
            invariant
                ids == self.vector_ids@,
                vectors == vector_views(self.vectors@),
                ids.len() == vectors.len(),
                out@ == head + records_bytes(version, ids, vectors, i as nat),
        {
            let ghost before = out@;
            put_record(&mut out, version, self.vector_ids[i], self.vectors[i].as_slice());
            assert(out@ =~= head + records_bytes(version, ids, vectors, (i + 1) as nat));
        }
        out
    }

    /// The bytes of the record of one slot.
    pub fn record_bytes(&self, slot: usize) -> (out: Vec<u8>)
        requires
            self.wf(),
            slot < self@.ids.len(),
        ensures
            out@ == record_bytes(
                self@.header.version,
                self@.ids[slot as int],
                self@.vectors[slot as int],
            ),
    {
        let mut out: Vec<u8> = Vec::new();
        put_record(
            &mut out,
            self.header.version,
            self.vector_ids[slot],
            self.vectors[slot].as_slice(),
        );
        assert(out@ =~= record_bytes(
            self@.header.version,
            self@.ids[slot as int],
            self@.vectors[slot as int],
        ));
        out
    }

    /// Size of one record, if it fits this platform.
    pub fn record_size(&self) -> (size: Option<usize>)
        ensures
            match size {
                Some(n) => n == record_len(self@.header.version, self@.header.dimension),
                None => record_len(self@.header.version, self@.header.dimension) > usize::MAX,
            },
    {
        match (self.header.dimension as usize).checked_mul(4) {
            None => None,
            Some(n) => if self.header.version == LEGACY_FORMAT_VERSION {
                Some(n)
            } else {
                n.checked_add(VECTOR_ID_SIZE)
            },
        }
    }

    /// Where the record of a slot starts in the file, if that fits this
    /// platform.
    pub fn record_offset(&self, slot: usize) -> (offset: Option<usize>)
        ensures
            match offset {
                Some(n) => n == record_at(
                    record_len(self@.header.version, self@.header.dimension),
                    slot as int,
                ),
                None => record_at(
                    record_len(self@.header.version, self@.header.dimension),
                    slot as int,
                ) > usize::MAX || record_len(self@.header.version, self@.header.dimension)
                    > usize::MAX,
            },
    {
        match self.record_size() {
            None => None,
            Some(size) => match slot.checked_mul(size) {
                None => None,
                Some(n) => n.checked_add(HEADER_SIZE),
            },
        }
    }

    /// The length that the file is to have, given the length it has: long
    /// enough for every record, and where it has to grow then at least doubled,
    /// with room for 64 records.
    pub fn file_len(&self, mapped: usize) -> (len: Option<usize>)
        ensures
            match len {
                Some(n) => n == grown_len(
                    record_len(self@.header.version, self@.header.dimension),
                    self@.ids.len() as int,
                    mapped as int,
                ),
                None => grown_len(
                    record_len(self@.header.version, self@.header.dimension),
                    self@.ids.len() as int,
                    mapped as int,
                ) > usize::MAX,
            },
    {
        let ghost size = record_len(self@.header.version, self@.header.dimension);
        let ghost n = self@.ids.len() as int;
        proof {
            record_at_order(size, 0, n);
            record_at_order(size, 0, 64);
            if n >= 1 {
                record_at_order(size, 1, n);
            }
            assert(1 * size == size);
            assert(0 * size == 0);
        }
        let required: usize = match self.record_offset(self.vector_ids.len()) {
            Some(required) => required,
            None => {
                if self.vector_ids.len() == 0 {
                    return if mapped >= HEADER_SIZE { Some(mapped) } else { None };
                }
                return None;
            },
        };
        if required <= mapped {
            return Some(mapped);
        }
        let doubled: usize = match mapped.checked_mul(2) {
            Some(doubled) => doubled,
            None => return None,
        };
        let first: usize = match self.record_offset(64) {
            Some(first) => first,
            None => return None,
        };
        let mut len: usize = required;
        if doubled > len {
            len = doubled;
        }
        if first > len {
            len = first;
        }
        Some(len)
    }

    /// The metadata snapshot of this store; none where no vector has metadata.
    pub fn meta_snapshot(&self) -> (snapshot: Option<Vec<u8>>)
        requires
            self.wf(),
        ensures
            match snapshot {
                Some(m) => any_some(self@.metadata) && m@ == snapshot_bytes(
                    self@.ids,
                    self@.metadata,
                    self@.header.max_vector_id,
                ),
                None => !any_some(self@.metadata),
            },
    {
        if count_some(&self.metadata) == 0 {
            return None;
        }
        Some(serialize_meta_snapshot(&self.vector_ids, &self.metadata, self.header.max_vector_id))
    }

    /// This store rewritten with its live vectors alone.
    pub fn compacted(&self) -> (store: Self)
        requires
            self.wf(),
        ensures
            store.wf(),
            store@ == self@.compacted(),
            store.pending() == Seq::<u8>::empty(),
    {
        let mut store = Self::create(self.header.dimension, self.header.metric);
        let ghost all = self@;
        for slot in 0..self.vector_ids.len()
            invariant
                self.wf(),
                all == self@,
                store.wf(),
                store.pending() == Seq::<u8>::empty(),
                rewrites(all, store@, all.live_slots(slot as nat)),
                forall|j: int|
                    slot <= j < all.ids.len() ==> store@.header.max_vector_id < #[trigger] all.ids[j],
        {
            let vector_id: u64 = self.vector_ids[slot];
            if !self.is_deleted(vector_id) {
                let ghost before = store@;
                let ghost live = all.live_slots(slot as nat);
                let data = self.get_vector_unchecked(slot);
                assert(all.metadata[slot as int] == slot_view(self.metadata@[slot as int]));
                store.insert_raw(vector_id, data, clone_slot(&self.metadata[slot]));
                assert(rewrites(all, store@, live.push(slot as int)));
            }
        }
        store.header.max_vector_id = self.header.max_vector_id;
        proof {
            let live = all.live_slots(all.ids.len());
            let want = all.compacted();
            assert(store@.ids =~= want.ids);
            assert(store@.vectors =~= want.vectors);
            assert(store@.metadata =~= want.metadata);
            live_slots_in_range(all, all.ids.len());
            assert forall|i: int| 0 <= i < store@.ids.len() implies 1 <= #[trigger] store@.ids[i]
                <= all.header.max_vector_id by {
                let slot = live[i];
                assert(all.ids[slot] <= all.header.max_vector_id);
            }
            assert(store@ == want);
        }
        store
    }

    /// Rewrites the store with its live vectors alone.
    pub fn compact(&mut self)
        requires
            old(self).wf(),
        ensures
            final(self).wf(),
            final(self)@ == old(self)@.compacted(),
            final(self).pending() == Seq::<u8>::empty(),
    {
        let store = self.compacted();
        *self = store;
    }

    /// Whether the store holds exactly the vectors with these IDs, none of them
    /// deleted: what tells a compaction that was installed from one that was
    /// rolled back.
    pub fn holds_exactly(&self, ids: &[u64]) -> (r: bool)
        ensures
            r == (self@.deleted.len() == 0 && self@.ids == ids@),
    {
        broadcast use group_hash_axioms;

        if self.deleted_ids.len() != 0 || self.vector_ids.len() != ids.len() {
            return false;
        }
        for i in 0..ids.len()
            invariant
                self.vector_ids@.len() == ids@.len(),
                forall|j: int| 0 <= j < i ==> self.vector_ids@[j] == ids@[j],
        {
            if self.vector_ids[i] != ids[i] {
                return false;
            }
        }
        assert(self@.ids =~= ids@);
        true
    }

    /// The IDs of the vectors that are not deleted.
    pub fn live_ids(&self) -> (ids: Vec<u64>)
        requires
            self.wf(),
        ensures
            ids@ == self@.compacted().ids,
    {
        let ghost all = self@;
        let mut ids: Vec<u64> = Vec::new();
        for slot in 0..self.vector_ids.len()
            invariant
                all == self@,
                ids@ =~= Seq::new(
                    all.live_slots(slot as nat).len(),
                    |i: int| all.ids[all.live_slots(slot as nat)[i]],
                ),
        {
            let vector_id: u64 = self.vector_ids[slot];
            if !self.is_deleted(vector_id) {
                ids.push(vector_id);
            }
        }
        ids
    }
}

/// Whether `s` holds exactly what `live` slots of `all` hold.
pub open spec fn rewrites(all: StoreView, s: StoreView, live: Seq<int>) -> bool {
    &&& s.header.version == FORMAT_VERSION
    &&& s.header.metric == all.header.metric
    &&& s.header.dimension == all.header.dimension
    &&& s.ids =~= Seq::new(live.len(), |i: int| all.ids[live[i]])
    &&& s.vectors =~= Seq::new(live.len(), |i: int| all.vectors[live[i]])
    &&& s.metadata =~= Seq::new(live.len(), |i: int| all.metadata[live[i]])
    &&& s.deleted == Set::<u64>::empty()
}

/// The live slots are slots, in ascending order, of vectors without tombstone,
/// and every such slot is among them.
pub proof fn live_slots_in_range(s: StoreView, n: nat)
    requires
        n <= s.ids.len(),
    ensures
        forall|i: int|
            0 <= i < s.live_slots(n).len() ==> 0 <= #[trigger] s.live_slots(n)[i] < n
                && !s.deleted.contains(s.ids[s.live_slots(n)[i]]),
        forall|i: int, j: int|
            0 <= i < j < s.live_slots(n).len() ==> s.live_slots(n)[i] < s.live_slots(n)[j],
        forall|slot: int|
            0 <= slot < n && !s.deleted.contains(#[trigger] s.ids[slot]) ==> s.live_slots(
                n,
            ).contains(slot),
        s.live_slots(n).len() <= n,
    decreases n,
{
    if n > 0 {
        live_slots_in_range(s, (n - 1) as nat);
        let fewer = s.live_slots((n - 1) as nat);
        assert forall|slot: int|
            0 <= slot < n && !s.deleted.contains(#[trigger] s.ids[slot]) implies s.live_slots(
            n,
        ).contains(slot) by {
            if slot < n - 1 {
                assert(fewer.contains(slot));
                let i = choose|i: int| 0 <= i < fewer.len() && fewer[i] == slot;
                assert(s.live_slots(n)[i] == slot);
            } else {
                assert(s.live_slots(n)[fewer.len() as int] == slot);
            }
        }
    }
}

/// The length of a vector file with `n` records that was `mapped` bytes long.
pub open spec fn grown_len(record_size: int, n: int, mapped: int) -> int {
    let required = record_at(record_size, n);
    if required <= mapped {
        mapped
    } else {
        let len = if 2 * mapped > required { 2 * mapped } else { required };
        if record_at(record_size, 64) > len { record_at(record_size, 64) } else { len }
    }
}

/// The `n` IDs after `max`.
pub open spec fn next_ids(max: u64, n: nat) -> Seq<u64> {
    Seq::new(n, |i: int| (max + 1 + i) as u64)
}

/// Whether an error is that of the first vector of a batch that has another
/// dimension.
pub open spec fn is_first_mismatch(batch: Seq<Seq<u32>>, dimension: u32, e: ErrorView) -> bool {
    exists|i: int|
        0 <= i < batch.len() && (#[trigger] batch[i]).len() != dimension && dimensions_match(
            batch,
            dimension,
            i,
        ) && e == (ErrorView::DimensionMismatch {
            expected: dimension,
            actual: len_field(batch[i].len()),
        })
}

/// No metadata for any of `n` vectors.
pub fn without_metadata(n: usize) -> (none: Vec<Option<Metadata>>)
    ensures
        slot_views(none@) == no_metadata(n as nat),
        none@.len() == n,
{
    let mut none: Vec<Option<Metadata>> = Vec::with_capacity(n);
    for i in 0..n
        invariant
            none@.len() == i,
            forall|j: int| 0 <= j < i ==> #[trigger] none@[j] is None,
    {
        none.push(None);
    }
    assert(slot_views(none@) =~= no_metadata(n as nat));
    none
}

/// What it means to add a batch: its vectors have the next IDs and their
/// insertions are in the log; or one is of the wrong length, and nothing
/// changes.
pub open spec fn inserts_batch(
    before: &VectorStore,
    after: &VectorStore,
    batch: Seq<Seq<u32>>,
    metadata: Seq<Option<Pairs>>,
    result: Result<Vec<u64>, QuiverError>,
) -> bool {
    match result {
        Ok(ids) => {
            &&& dimensions_match(batch, before@.header.dimension, batch.len() as int)
            &&& ids@ == next_ids(before@.header.max_vector_id, batch.len())
            &&& after@ == before@.batch_inserted(batch, metadata, batch.len())
            &&& after.pending() == before.pending() + batch_log(
                before@.header.max_vector_id,
                batch,
                metadata,
                batch.len(),
            )
        },
        Err(e) => {
            &&& is_first_mismatch(batch, before@.header.dimension, e@)
            &&& after@ == before@
            &&& after.pending() == before.pending()
        },
    }
}

/// What it means to add a vector: the vector has the next ID and its insertion
/// is in the log; or it is of the wrong length, and nothing changes.
pub open spec fn inserts(
    before: &VectorStore,
    after: &VectorStore,
    data: Seq<u32>,
    metadata: Option<Pairs>,
    result: Result<u64, QuiverError>,
) -> bool {
    match result {
        Ok(id) => {
            &&& data.len() == before@.header.dimension
            &&& id == before@.header.max_vector_id + 1
            &&& after@ == before@.inserted(id, data, metadata)
            &&& after.pending() == before.pending() + entry_bytes(insert_entry(id, data, metadata))
        },
        Err(e) => {
            &&& data.len() != before@.header.dimension
            &&& e@ == (ErrorView::DimensionMismatch {
                expected: before@.header.dimension,
                actual: len_field(data.len()),
            })
            &&& after@ == before@
            &&& after.pending() == before.pending()
        },
    }
}

proof fn replay_stays_err(s: StoreView, entries: Seq<EntryView>, n: int)
    requires
        0 <= n <= entries.len(),
        s.replay(entries.take(n)) is Err,
    ensures
        s.replay(entries) == s.replay(entries.take(n)),
    decreases entries.len() - n,
{
    if n < entries.len() {
        assert(entries.take(n + 1).drop_last() =~= entries.take(n));
        replay_stays_err(s, entries, n + 1);
    } else {
        assert(entries.take(n) =~= entries);
    }
}

/// What is written is read back: a vector that was inserted stands in the next slot
/// under its ID, as it was given and with its metadata, and is live unless its ID
/// was deleted before; nothing else changes.
pub proof fn inserted_vector_is_read_back(
    s: StoreView,
    id: u64,
    data: Seq<u32>,
    metadata: Option<Pairs>,
)
    requires
        s.wf(),
        id > s.header.max_vector_id,
        s.ids.len() < u64::MAX,
    ensures
        ({
            let t = s.inserted(id, data, metadata);
            let slot = s.ids.len() as int;
            &&& t.ids.len() == slot + 1 && t.vectors.len() == slot + 1 && t.metadata.len() == slot
                + 1
            &&& slot_of(t.ids, id) == Some(slot)
            &&& t.ids[slot] == id
            &&& t.vectors[slot] == data
            &&& t.metadata[slot] == metadata
            &&& forall|i: int|
                0 <= i < slot ==> #[trigger] t.ids[i] == s.ids[i] && t.vectors[i] == s.vectors[i]
                    && t.metadata[i] == s.metadata[i]
            &&& t.deleted == s.deleted
            &&& t.is_live(id) <==> !s.deleted.contains(id)
            &&& forall|other: u64| other != id ==> (#[trigger] t.is_live(other) <==> s.is_live(
                other,
            ))
            &&& t.header.vector_count == s.header.vector_count + 1
            &&& t.header.max_vector_id == id
            &&& t.header.dimension == s.header.dimension
            &&& t.header.metric == s.header.metric
            &&& t.header.version == (if metadata is Some { 3 } else { s.header.version })
        }),
{
    let t = s.inserted(id, data, metadata);
    let slot = s.ids.len() as int;
    assert(t.ids[slot] == id);
    assert forall|i: int| 0 <= i < slot implies #[trigger] t.ids[i] == s.ids[i] && t.ids[i]
        != id by {
        assert(s.ids[i] <= s.header.max_vector_id);
    }
    let found = t.ids.index_of(id);
    assert(t.ids[found] == id);
    assert forall|other: u64| other != id implies (#[trigger] t.is_live(other) <==> s.is_live(
        other,
    )) by {
        if s.ids.contains(other) {
            let i = choose|i: int| 0 <= i < s.ids.len() && s.ids[i] == other;
            assert(t.ids[i] == other);
        }
        if t.ids.contains(other) {
            let i = choose|i: int| 0 <= i < t.ids.len() && t.ids[i] == other;
            assert(s.ids[i] == other);
        }
    }
}

/// A deletion takes the one vector and no other, and leaves every slot as it is.
pub proof fn erased_vector_is_gone(s: StoreView, id: u64)
    ensures
        ({
            let t = s.erased(id);
            &&& !t.is_live(id)
            &&& forall|other: u64| other != id ==> (#[trigger] t.is_live(other) <==> s.is_live(
                other,
            ))
            &&& forall|other: u64| other != id ==> (#[trigger] t.deleted.contains(other)
                <==> s.deleted.contains(other))
            &&& t.ids == s.ids && t.vectors == s.vectors && t.metadata == s.metadata && t.header
                == s.header
        }),
{
}

/// A batch does what its insertions do: its vectors stand behind those that were
/// there, in order and as they were given, under the next IDs.
pub proof fn inserted_batch_is_read_back(
    s: StoreView,
    batch: Seq<Seq<u32>>,
    metadata: Seq<Option<Pairs>>,
    n: nat,
)
    requires
        s.header.max_vector_id + n <= u64::MAX,
        s.header.vector_count + n <= u64::MAX,
        s.vectors.len() == s.ids.len(),
        s.metadata.len() == s.ids.len(),
        n <= batch.len(),
        n <= metadata.len(),
    ensures
        ({
            let t = s.batch_inserted(batch, metadata, n);
            &&& t.ids == s.ids + Seq::new(
                n,
                |i: int| (s.header.max_vector_id + 1 + i) as u64,
            )
            &&& t.vectors == s.vectors + batch.take(n as int)
            &&& t.metadata == s.metadata + metadata.take(n as int)
            &&& t.deleted == s.deleted
            &&& t.header.vector_count == s.header.vector_count + n
            &&& t.header.max_vector_id == s.header.max_vector_id + n
            &&& t.header.dimension == s.header.dimension
            &&& t.header.metric == s.header.metric
        }),
    decreases n,
{
    let t = s.batch_inserted(batch, metadata, n);
    if n > 0 {
        inserted_batch_is_read_back(s, batch, metadata, (n - 1) as nat);
    }
    assert(t.ids =~= s.ids + Seq::new(n, |i: int| (s.header.max_vector_id + 1 + i) as u64));
    assert(t.vectors =~= s.vectors + batch.take(n as int));
    assert(t.metadata =~= s.metadata + metadata.take(n as int));
}

/// The length that a file grows to holds every record and is no less than it was;
/// where it has to grow, it is at least doubled and has room for 64 records.
pub proof fn grown_file_has_room(record_size: int, n: int, mapped: int)
    requires
        record_size >= 0,
        n >= 0,
        mapped >= 0,
    ensures
        ({
            let len = grown_len(record_size, n, mapped);
            &&& len >= mapped
            &&& len >= 64 + n * record_size
            &&& 64 + n * record_size <= mapped ==> len == mapped
            &&& 64 + n * record_size > mapped ==> len >= 2 * mapped && len >= 64 + 64 * record_size
                && (len == 2 * mapped || len == 64 + n * record_size || len == 64 + 64
                * record_size)
        }),
{
}

} // verus!

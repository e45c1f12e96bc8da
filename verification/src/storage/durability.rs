//! What survives a crash: laws that relate a store to the files it leaves.
use vstd::prelude::*;

use crate::bytes::{u64_at, u64_bytes, u64_read_back};
use crate::distance::Metric;
use crate::error::ErrorView;
use crate::metadata::{ascending, Pairs};
use crate::storage::compaction::{before_swap, interrupted_swap_is_recovered, swap_plan, Trio};
use crate::storage::format::{file_bytes, file_round_trip, parse_file, parsed_ids_ascend, record_len,
    storable, Layout};
use crate::storage::header::FORMAT_VERSION;
use crate::storage::snapshot::{any_some, applied_len, applied_metadata_ascends, apply_snapshot,
    slot_of_ascending, slots_ascend, snapshot_bytes, snapshot_fits, snapshot_round_trip};
use crate::storage::vecstore::{batch_log, checkpoint, live_slots_in_range, no_metadata, recover,
    StoreView};
use crate::storage::wal::{appended_entry_is_read, cut_log_is_whole, delete_entry, entry_at,
    entries_sound, entry_bytes, entry_fits, insert_entry, log_is_whole, read_entries_are_sound,
    read_log, torn_entry_is_dropped, EntryView, WalOp};

verus! {

/// The vector file of a store.
pub open spec fn data_file(s: StoreView) -> Seq<u8> {
    file_bytes(s.header, s.ids, s.vectors)
}

/// The snapshot beside the vector file of a store once it is checkpointed; where
/// no vector has metadata, `before` stays.
pub open spec fn meta_file(s: StoreView, before: Option<Seq<u8>>) -> Option<Seq<u8>> {
    if any_some(s.metadata) {
        Some(snapshot_bytes(s.ids, s.metadata, s.header.max_vector_id))
    } else {
        before
    }
}

/// Whether the files of a store can hold it: it has a dimension, the lengths fit
/// their fields and the platform, and a legacy store has the IDs that its
/// records imply.
pub open spec fn persistable(s: StoreView) -> bool {
    &&& s.wf()
    &&& storable(s.header, s.ids, s.vectors)
    &&& snapshot_fits(s.metadata)
    &&& snapshot_bytes(s.ids, s.metadata, s.header.max_vector_id).len() <= usize::MAX
}

/// An insertion that is in the log is never lost: whatever the last checkpoint
/// was, the store that is recovered has the vector under its ID, with its
/// metadata.
pub proof fn logged_insert_is_recovered(
    data: Seq<u8>,
    wal: Seq<u8>,
    meta: Option<Seq<u8>>,
    s: StoreView,
    vector: Seq<u32>,
    metadata: Option<Pairs>,
)
    requires
        recover(data, wal, meta) == Ok::<StoreView, ErrorView>(s),
        log_is_whole(wal),
        s.header.max_vector_id < u64::MAX,
        vector.len() == s.header.dimension,
        entry_fits(insert_entry((s.header.max_vector_id + 1) as u64, vector, metadata)),
    ensures
        recover(
            data,
            wal + entry_bytes(
                insert_entry((s.header.max_vector_id + 1) as u64, vector, metadata),
            ),
            meta,
        ) == Ok::<StoreView, ErrorView>(
            s.inserted((s.header.max_vector_id + 1) as u64, vector, metadata),
        ),
{
    let e = insert_entry((s.header.max_vector_id + 1) as u64, vector, metadata);
    appended_entry_is_read(wal, e);
    let entries = read_log(wal, 0).0;
    assert(entries.push(e).drop_last() =~= entries);
}

/// A deletion that is in the log is never lost.
pub proof fn logged_delete_is_recovered(
    data: Seq<u8>,
    wal: Seq<u8>,
    meta: Option<Seq<u8>>,
    s: StoreView,
    id: u64,
)
    requires
        recover(data, wal, meta) == Ok::<StoreView, ErrorView>(s),
        log_is_whole(wal),
    ensures
        recover(data, wal + entry_bytes(delete_entry(id)), meta) == Ok::<StoreView, ErrorView>(
            s.erased(id),
        ),
{
    let e = delete_entry(id);
    assert(entry_fits(e));
    appended_entry_is_read(wal, e);
    let entries = read_log(wal, 0).0;
    assert(entries.push(e).drop_last() =~= entries);
}

/// A crash while an entry is being written costs that entry alone.
pub proof fn torn_write_costs_one_entry(
    data: Seq<u8>,
    wal: Seq<u8>,
    meta: Option<Seq<u8>>,
    e: EntryView,
    n: int,
)
    requires
        log_is_whole(wal),
        entry_fits(e),
        0 <= n < entry_bytes(e).len(),
    ensures
        recover(data, wal + entry_bytes(e).take(n), meta) == recover(data, wal, meta),
{
    torn_entry_is_dropped(wal, e, n);
}

/// A log is recovered from alike before and after it is cut where its valid
/// part ends.
pub proof fn cut_log_recovers_alike(data: Seq<u8>, wal: Seq<u8>, meta: Option<Seq<u8>>)
    ensures
        recover(data, wal.take(read_log(wal, 0).1), meta) == recover(data, wal, meta),
        log_is_whole(wal.take(read_log(wal, 0).1)),
{
    cut_log_is_whole(wal);
}

/// What a batch changes of the header.
pub proof fn batch_inserted_header(
    s: StoreView,
    batch: Seq<Seq<u32>>,
    metadata: Seq<Option<Pairs>>,
    n: nat,
)
    requires
        s.header.max_vector_id + n <= u64::MAX,
    ensures
        s.batch_inserted(batch, metadata, n).header.max_vector_id == s.header.max_vector_id + n,
        s.batch_inserted(batch, metadata, n).header.dimension == s.header.dimension,
    decreases n,
{
    if n > 0 {
        batch_inserted_header(s, batch, metadata, (n - 1) as nat);
    }
}

/// A crash while a batch is being logged leaves exactly the vectors whose
/// entries were written whole: the first `n`, where `torn` bytes of the next
/// one's entry were written.
pub proof fn batch_prefix_is_recovered(
    data: Seq<u8>,
    wal: Seq<u8>,
    meta: Option<Seq<u8>>,
    s: StoreView,
    batch: Seq<Seq<u32>>,
    metadata: Seq<Option<Pairs>>,
    n: nat,
    next: EntryView,
    torn: int,
)
    requires
        recover(data, wal, meta) == Ok::<StoreView, ErrorView>(s),
        log_is_whole(wal),
        n <= batch.len(),
        batch.len() == metadata.len(),
        s.header.max_vector_id + batch.len() <= u64::MAX,
        forall|i: int| 0 <= i < batch.len() ==> (#[trigger] batch[i]).len() == s.header.dimension,
        forall|i: int|
            0 <= i < batch.len() ==> entry_fits(
                insert_entry(
                    (s.header.max_vector_id + 1 + i) as u64,
                    #[trigger] batch[i],
                    metadata[i],
                ),
            ),
        entry_fits(next),
        0 <= torn < entry_bytes(next).len(),
    ensures
        recover(
            data,
            wal + batch_log(s.header.max_vector_id, batch, metadata, n) + entry_bytes(next).take(
                torn,
            ),
            meta,
        ) == Ok::<StoreView, ErrorView>(s.batch_inserted(batch, metadata, n)),
        recover(data, wal + batch_log(s.header.max_vector_id, batch, metadata, n), meta) == Ok::<
            StoreView,
            ErrorView,
        >(s.batch_inserted(batch, metadata, n)),
        log_is_whole(wal + batch_log(s.header.max_vector_id, batch, metadata, n)),
    decreases n,
{
    let max = s.header.max_vector_id;
    let log = wal + batch_log(max, batch, metadata, n);
    if n == 0 {
        assert(log =~= wal);
    } else {
        let m = (n - 1) as nat;
        batch_prefix_is_recovered(data, wal, meta, s, batch, metadata, m, next, torn);
        let shorter = wal + batch_log(max, batch, metadata, m);
        let t = s.batch_inserted(batch, metadata, m);
        batch_inserted_header(s, batch, metadata, m);
        assert(batch[m as int].len() == s.header.dimension);
        let e = insert_entry((max + n) as u64, batch[n - 1], metadata[n - 1]);
        assert(entry_fits(insert_entry((max + 1 + m) as u64, batch[m as int], metadata[m as int])));
        logged_insert_is_recovered(data, shorter, meta, t, batch[n - 1], metadata[n - 1]);
        appended_entry_is_read(shorter, e);
        assert(log =~= shorter + entry_bytes(e));
    }
    torn_entry_is_dropped(log, next, torn);
}

/// A snapshot that does not check out is as good as none: recovery falls back
/// to the log.
pub proof fn invalid_snapshot_is_ignored(
    data: Seq<u8>,
    wal: Seq<u8>,
    meta: Seq<u8>,
)
    requires
        parse_file(data) matches Ok(layout) ==> apply_snapshot(
            meta,
            layout.ids,
            layout.header.max_vector_id,
            no_metadata(layout.ids.len()),
        ) is Err,
    ensures
        recover(data, wal, Some(meta)) == recover(data, wal, None),
{
}

/// The IDs that the entries of a log delete.
pub open spec fn erased_ids(entries: Seq<EntryView>) -> Set<u64>
    decreases entries.len(),
{
    if entries.len() == 0 {
        Set::empty()
    } else if entries.last().op == WalOp::Delete {
        erased_ids(entries.drop_last()).insert(entries.last().id)
    } else {
        erased_ids(entries.drop_last())
    }
}

/// Whether an entry of a log has nothing left to bring to a store.
pub open spec fn entry_settled(s: StoreView, e: EntryView) -> bool {
    e.op != WalOp::Delete ==> {
        &&& e.data is Some ==> e.id <= s.header.max_vector_id
        &&& e.metadata is Some ==> !s.lacks_metadata(e.id)
    }
}

/// Whether a log has nothing but deletions left to bring to a store.
pub open spec fn settled(s: StoreView, entries: Seq<EntryView>) -> bool {
    forall|i: int| 0 <= i < entries.len() ==> entry_settled(s, #[trigger] entries[i])
}

proof fn step_keeps_settled(s: StoreView, e: EntryView, old_entry: EntryView)
    requires
        s.wf(),
        s.ids.len() < u64::MAX,
        s.step(e) is Ok,
        s.step(e)->Ok_0.wf(),
        entry_settled(s, old_entry),
        old_entry.op == WalOp::Delete || old_entry.data is Some,
    ensures
        entry_settled(s.step(e)->Ok_0, old_entry),
{
    let t = s.step(e)->Ok_0;
    if old_entry.op != WalOp::Delete && t.lacks_metadata(old_entry.id) {
        let id = old_entry.id;
        let slot = t.ids.index_of(id);
        assert(t.ids[slot] == id);
        if t.ids == s.ids.push(e.id) {
            assert(slot < s.ids.len());
            assert(s.ids[slot] == id);
        }
        slot_of_ascending(s.ids, s.header.max_vector_id, slot);
        assert(s.metadata[slot] is None);
        assert(s.lacks_metadata(id));
    }
}

proof fn step_settles(s: StoreView, e: EntryView)
    requires
        s.wf(),
        s.step(e) is Ok,
        s.step(e)->Ok_0.wf(),
        e.op == WalOp::Delete || e.data is Some,
    ensures
        entry_settled(s.step(e)->Ok_0, e),
{
    let t = s.step(e)->Ok_0;
    if e.op != WalOp::Delete && e.metadata is Some && t.lacks_metadata(e.id) {
        let slot = t.ids.index_of(e.id);
        assert(t.ids[slot] == e.id);
        if e.id > s.header.max_vector_id {
            if slot < s.ids.len() {
                assert(s.ids[slot] <= s.header.max_vector_id);
            }
            assert(t.metadata[slot] == e.metadata);
        } else {
            assert(s.ids[slot] == e.id);
            slot_of_ascending(s.ids, s.header.max_vector_id, slot);
        }
        assert(false);
    }
}

proof fn step_wf(s: StoreView, e: EntryView)
    requires
        s.wf(),
        s.ids.len() < u64::MAX,
        e.metadata matches Some(pairs) ==> ascending(pairs),
        s.step(e) is Ok,
    ensures
        s.step(e)->Ok_0.wf(),
        s.step(e)->Ok_0.ids.len() <= s.ids.len() + 1,
        s.step(e)->Ok_0.header.dimension == s.header.dimension,
{
    let t = s.step(e)->Ok_0;
    if t.ids == s.ids.push(e.id) {
        assert forall|i: int, j: int| 0 <= i < j < t.ids.len() implies t.ids[i] < t.ids[j] by {
            assert(s.ids[i] <= s.header.max_vector_id);
        }
    }
    assert forall|i: int| 0 <= i < t.metadata.len() implies (#[trigger] t.metadata[i] matches Some(
        pairs,
    ) ==> ascending(pairs)) by {
        if i < s.metadata.len() {
            assert(t.metadata[i] == s.metadata[i] || t.metadata[i] == e.metadata);
        }
    }
}

proof fn replay_wf(s: StoreView, entries: Seq<EntryView>)
    requires
        s.wf(),
        entries_sound(entries),
        s.ids.len() + entries.len() <= u64::MAX,
        s.replay(entries) is Ok,
    ensures
        s.replay(entries)->Ok_0.wf(),
        s.replay(entries)->Ok_0.ids.len() <= s.ids.len() + entries.len(),
    decreases entries.len(),
{
    if entries.len() > 0 {
        let fewer = entries.drop_last();
        assert(entries_sound(fewer)) by {
            assert forall|i: int| 0 <= i < fewer.len() implies {
                let e = #[trigger] fewer[i];
                &&& e.op == WalOp::Delete || e.data is Some
                &&& e.metadata matches Some(pairs) ==> ascending(pairs)
            } by {
                assert(fewer[i] == entries[i]);
            }
        }
        replay_wf(s, fewer);
        assert(entries[entries.len() - 1] == entries.last());
        step_wf(s.replay(fewer)->Ok_0, entries.last());
    }
}

proof fn sound_prefix(entries: Seq<EntryView>)
    requires
        entries.len() > 0,
        entries_sound(entries),
    ensures
        entries_sound(entries.drop_last()),
        entries.last().op == WalOp::Delete || entries.last().data is Some,
        entries.last().metadata matches Some(pairs) ==> ascending(pairs),
{
    let fewer = entries.drop_last();
    assert forall|i: int| 0 <= i < fewer.len() implies {
        let e = #[trigger] fewer[i];
        &&& e.op == WalOp::Delete || e.data is Some
        &&& e.metadata matches Some(pairs) ==> ascending(pairs)
    } by {
        assert(fewer[i] == entries[i]);
    }
    assert(entries[entries.len() - 1] == entries.last());
}

/// A store has nothing left to gain from a log that was replayed into it, and
/// has the log's tombstones beside its own.
pub proof fn replayed_log_is_settled(s: StoreView, entries: Seq<EntryView>)
    requires
        s.wf(),
        entries_sound(entries),
        s.ids.len() + entries.len() <= u64::MAX,
        s.replay(entries) is Ok,
    ensures
        settled(s.replay(entries)->Ok_0, entries),
        s.replay(entries)->Ok_0.deleted == s.deleted.union(erased_ids(entries)),
    decreases entries.len(),
{
    let t = s.replay(entries)->Ok_0;
    if entries.len() == 0 {
        assert(s.deleted.union(erased_ids(entries)) =~= s.deleted);
    } else {
        let fewer = entries.drop_last();
        let last = entries.last();
        sound_prefix(entries);
        replayed_log_is_settled(s, fewer);
        replay_wf(s, fewer);
        replay_wf(s, entries);
        let u = s.replay(fewer)->Ok_0;
        step_settles(u, last);
        assert forall|i: int| 0 <= i < entries.len() implies entry_settled(
            t,
            #[trigger] entries[i],
        ) by {
            if i < fewer.len() {
                assert(entries[i] == fewer[i]);
                assert(entry_settled(u, fewer[i]));
                step_keeps_settled(u, last, fewer[i]);
            }
        }
        assert(t.deleted =~= s.deleted.union(erased_ids(entries)));
    }
}

/// Where a log has nothing but deletions left to bring, replay adds its
/// tombstones and nothing else.
pub proof fn settled_log_adds_tombstones(s: StoreView, entries: Seq<EntryView>)
    requires
        settled(s, entries),
    ensures
        s.replay(entries) == Ok::<StoreView, ErrorView>(
            StoreView { deleted: s.deleted.union(erased_ids(entries)), ..s },
        ),
    decreases entries.len(),
{
    if entries.len() == 0 {
        assert(s.deleted.union(erased_ids(entries)) =~= s.deleted);
    } else {
        let fewer = entries.drop_last();
        let last = entries.last();
        assert forall|i: int| 0 <= i < fewer.len() implies entry_settled(s, #[trigger] fewer[i]) by {
            assert(fewer[i] == entries[i]);
        }
        settled_log_adds_tombstones(s, fewer);
        assert(entry_settled(s, entries[entries.len() - 1]));
        let u = StoreView { deleted: s.deleted.union(erased_ids(fewer)), ..s };
        assert(u.lacks_metadata(last.id) == s.lacks_metadata(last.id));
        if last.op == WalOp::Delete {
            assert(u.deleted.insert(last.id) =~= s.deleted.union(erased_ids(entries)));
        }
    }
}

/// To replay a log into a store a second time changes nothing.
pub proof fn replay_is_idempotent(s: StoreView, entries: Seq<EntryView>)
    requires
        s.wf(),
        entries_sound(entries),
        s.ids.len() + entries.len() <= u64::MAX,
        s.replay(entries) is Ok,
    ensures
        s.replay(entries)->Ok_0.replay(entries) == s.replay(entries),
{
    let t = s.replay(entries)->Ok_0;
    replayed_log_is_settled(s, entries);
    settled_log_adds_tombstones(t, entries);
    assert(t.deleted.union(erased_ids(entries)) =~= t.deleted);
}

proof fn checkpoint_wf(data: Seq<u8>, meta: Option<Seq<u8>>)
    requires
        parse_file(data) is Ok,
    ensures
        checkpoint(data, parse_file(data)->Ok_0, meta).wf(),
        checkpoint(data, parse_file(data)->Ok_0, meta).ids.len() <= data.len(),
{
    let layout = parse_file(data)->Ok_0;
    parsed_ids_ascend(data);
    let n = layout.ids.len();
    assert(n <= n * layout.record_size) by (nonlinear_arith)
        requires
            n >= 0,
            layout.record_size >= 1,
    ;
    assert(slots_ascend(no_metadata(n)));
    if let Some(m) = meta {
        applied_len(m, layout.ids, layout.header.max_vector_id, no_metadata(n));
        applied_metadata_ascends(m, layout.ids, layout.header.max_vector_id, no_metadata(n));
    }
}

/// Whatever is recovered is a well-formed store.
pub proof fn recovered_store_is_well_formed(data: Seq<u8>, wal: Seq<u8>, meta: Option<Seq<u8>>)
    requires
        recover(data, wal, meta) is Ok,
        data.len() + wal.len() <= u64::MAX,
    ensures
        recover(data, wal, meta)->Ok_0.wf(),
{
    checkpoint_wf(data, meta);
    read_entries_are_sound(wal, 0);
    replay_wf(checkpoint(data, parse_file(data)->Ok_0, meta), read_log(wal, 0).0);
}

/// What the files of a checkpointed store hold: all but the tombstones.
pub proof fn checkpoint_of_files(s: StoreView, padding: Seq<u8>, before: Option<Seq<u8>>)
    requires
        persistable(s),
        any_some(s.metadata) || before is None,
    ensures
        parse_file(data_file(s) + padding) is Ok,
        checkpoint(
            data_file(s) + padding,
            parse_file(data_file(s) + padding)->Ok_0,
            meta_file(s, before),
        ) == (StoreView { deleted: Set::empty(), ..s }),
{
    let d = data_file(s) + padding;
    file_round_trip(s.header, s.ids, s.vectors, padding);
    let layout = Layout {
        header: s.header,
        record_size: record_len(s.header.version, s.header.dimension),
        ids: s.ids,
    };
    if any_some(s.metadata) {
        snapshot_round_trip(s.ids, s.metadata, s.header.max_vector_id);
        assert(no_metadata(s.metadata.len()) =~= Seq::new(
            s.metadata.len(),
            |i: int| None::<Pairs>,
        ));
    } else {
        assert(no_metadata(s.ids.len()) =~= s.metadata) by {
            assert forall|i: int| 0 <= i < s.metadata.len() implies s.metadata[i] is None by {}
        }
    }
}

/// A checkpoint holds the store: once the vector file and the snapshot are
/// rewritten, they and the same log give back the same store. Bytes behind the
/// last record do not matter.
pub proof fn checkpoint_is_recovered(
    data: Seq<u8>,
    wal: Seq<u8>,
    meta: Option<Seq<u8>>,
    s: StoreView,
    padding: Seq<u8>,
)
    requires
        recover(data, wal, meta) == Ok::<StoreView, ErrorView>(s),
        data.len() + wal.len() <= u64::MAX,
        persistable(s),
        any_some(s.metadata) || meta is None,
    ensures
        recover(data_file(s) + padding, wal, meta_file(s, meta)) == Ok::<StoreView, ErrorView>(s),
{
    let entries = read_log(wal, 0).0;
    let base = checkpoint(data, parse_file(data)->Ok_0, meta);
    checkpoint_wf(data, meta);
    read_entries_are_sound(wal, 0);
    replayed_log_is_settled(base, entries);
    checkpoint_of_files(s, padding, meta);
    let again = StoreView { deleted: Set::empty(), ..s };
    assert forall|i: int| 0 <= i < entries.len() implies entry_settled(
        again,
        #[trigger] entries[i],
    ) by {
        assert(entry_settled(s, entries[i]));
        assert(again.lacks_metadata(entries[i].id) == s.lacks_metadata(entries[i].id));
    }
    settled_log_adds_tombstones(again, entries);
    assert(again.deleted.union(erased_ids(entries)) =~= s.deleted);
}

/// `s` with the metadata of the slots that `u` has, and no tombstone but those
/// of `u`.
pub open spec fn refilled(s: StoreView, u: StoreView) -> StoreView {
    StoreView {
        metadata: Seq::new(
            s.ids.len(),
            |k: int| if k < u.ids.len() { u.metadata[k] } else { None },
        ),
        deleted: u.deleted,
        ..s
    }
}

/// Whether `s` has the slots of `u` and after them only vectors that are newer.
pub open spec fn outgrows(s: StoreView, u: StoreView) -> bool {
    &&& u.ids.len() <= s.ids.len()
    &&& u.header.max_vector_id <= s.header.max_vector_id
    &&& forall|k: int| 0 <= k < u.ids.len() ==> s.ids[k] == #[trigger] u.ids[k]
    &&& forall|k: int|
        u.ids.len() <= k < s.ids.len() ==> #[trigger] s.ids[k] > u.header.max_vector_id
}

proof fn refill_step(s: StoreView, u: StoreView, e: EntryView)
    requires
        s.wf(),
        u.wf(),
        u.step(e) is Ok,
        u.step(e)->Ok_0.wf(),
        e.op == WalOp::Delete || e.data is Some,
        outgrows(s, u.step(e)->Ok_0),
    ensures
        outgrows(s, u),
        refilled(s, u).step(e) == Ok::<StoreView, ErrorView>(refilled(s, u.step(e)->Ok_0)),
{
    let v = u.step(e)->Ok_0;
    let t = refilled(s, u);
    assert(forall|k: int| 0 <= k < u.ids.len() ==> v.ids[k] == #[trigger] u.ids[k]);
    if e.op != WalOp::Delete && e.id > u.header.max_vector_id {
        let k = u.ids.len() as int;
        assert(v.ids[k] == e.id);
        assert(s.ids[k] == e.id);
    }
    assert(outgrows(s, u));
    if e.op == WalOp::Delete {
        assert(t.erased(e.id).metadata =~= refilled(s, v).metadata);
    } else if e.id > u.header.max_vector_id {
        let k = u.ids.len() as int;
        slot_of_ascending(s.ids, s.header.max_vector_id, k);
        assert(s.ids[k] <= s.header.max_vector_id);
        if e.metadata is Some {
            assert(t.lacks_metadata(e.id));
            assert(t.metadata.update(k, e.metadata) =~= refilled(s, v).metadata);
        } else {
            assert(t.metadata =~= refilled(s, v).metadata);
        }
    } else {
        if t.ids.contains(e.id) {
            let k = t.ids.index_of(e.id);
            assert(s.ids[k] == e.id);
            assert(k < u.ids.len());
            assert(u.ids[k] == e.id);
            slot_of_ascending(u.ids, u.header.max_vector_id, k);
            assert(u.ids.contains(e.id));
        }
        if u.ids.contains(e.id) {
            let k = u.ids.index_of(e.id);
            assert(s.ids[k] == e.id);
            slot_of_ascending(s.ids, s.header.max_vector_id, k);
            assert(s.ids.contains(e.id));
            assert(t.metadata.update(k, e.metadata) =~= refilled(
                s,
                StoreView { metadata: u.metadata.update(k, e.metadata), ..u },
            ).metadata);
        }
        assert(t.lacks_metadata(e.id) == u.lacks_metadata(e.id));
        assert(e.id <= s.header.max_vector_id);
    }
}

proof fn log_refills(s: StoreView, base: StoreView, entries: Seq<EntryView>)
    requires
        s.wf(),
        base.wf(),
        entries_sound(entries),
        base.ids.len() + entries.len() <= u64::MAX,
        base.replay(entries) is Ok,
        outgrows(s, base.replay(entries)->Ok_0),
    ensures
        outgrows(s, base),
        refilled(s, base).replay(entries) == Ok::<StoreView, ErrorView>(
            refilled(s, base.replay(entries)->Ok_0),
        ),
    decreases entries.len(),
{
    if entries.len() > 0 {
        let fewer = entries.drop_last();
        sound_prefix(entries);
        replay_wf(base, fewer);
        replay_wf(base, entries);
        refill_step(s, base.replay(fewer)->Ok_0, entries.last());
        log_refills(s, base, fewer);
    }
}

/// A lost snapshot costs nothing while the log still carries every metadata: if
/// the checkpoint that the log started from had no metadata, the vector file of
/// a later checkpoint and the log alone give back the whole store.
pub proof fn lost_snapshot_is_refilled(
    data: Seq<u8>,
    wal: Seq<u8>,
    meta: Option<Seq<u8>>,
    s: StoreView,
    padding: Seq<u8>,
)
    requires
        recover(data, wal, meta) == Ok::<StoreView, ErrorView>(s),
        data.len() + wal.len() <= u64::MAX,
        !any_some(checkpoint(data, parse_file(data)->Ok_0, meta).metadata),
        persistable(s),
    ensures
        recover(data_file(s) + padding, wal, None) == Ok::<StoreView, ErrorView>(s),
{
    let entries = read_log(wal, 0).0;
    let base = checkpoint(data, parse_file(data)->Ok_0, meta);
    checkpoint_wf(data, meta);
    read_entries_are_sound(wal, 0);
    log_refills(s, base, entries);
    file_round_trip(s.header, s.ids, s.vectors, padding);
    let bare = StoreView { metadata: no_metadata(s.ids.len()), deleted: Set::empty(), ..s };
    assert(refilled(s, base).metadata =~= bare.metadata) by {
        assert forall|k: int| 0 <= k < base.ids.len() implies base.metadata[k] is None by {}
    }
    assert(refilled(s, s).metadata =~= s.metadata);
}

/// Compaction loses nothing and leaves nothing behind: the IDs that are left
/// are the live ones, in ascending order, each with its vector and metadata,
/// and the next ID stays the same.
pub proof fn compaction_keeps_the_live(s: StoreView)
    requires
        s.wf(),
    ensures
        s.compacted().wf(),
        s.compacted().header.max_vector_id == s.header.max_vector_id,
        s.compacted().header.version == 3,
        s.compacted().header.dimension == s.header.dimension,
        s.compacted().header.metric == s.header.metric,
        s.compacted().header.vector_count == s.compacted().ids.len(),
        s.compacted().deleted == Set::<u64>::empty(),
        forall|id: u64| #[trigger] s.compacted().is_live(id) <==> s.is_live(id),
        forall|i: int|
            0 <= i < s.compacted().ids.len() ==> {
                let slot = s.ids.index_of(#[trigger] s.compacted().ids[i]);
                &&& 0 <= slot < s.ids.len()
                &&& s.compacted().vectors[i] == s.vectors[slot]
                &&& s.compacted().metadata[i] == s.metadata[slot]
            },
{
    let c = s.compacted();
    let n = s.ids.len();
    let live = s.live_slots(n);
    live_slots_in_range(s, n);
    assert forall|i: int, j: int| 0 <= i < j < c.ids.len() implies c.ids[i] < c.ids[j] by {
        assert(live[i] < live[j]);
    }
    assert forall|i: int| 0 <= i < c.ids.len() implies 1 <= #[trigger] c.ids[i]
        <= c.header.max_vector_id by {
        assert(0 <= live[i] < n);
        assert(1 <= s.ids[live[i]] <= s.header.max_vector_id);
    }
    assert forall|i: int| 0 <= i < c.vectors.len() implies (#[trigger] c.vectors[i]).len()
        == c.header.dimension by {
        assert(0 <= live[i] < n);
        assert(s.vectors[live[i]].len() == s.header.dimension);
    }
    assert forall|i: int| 0 <= i < c.metadata.len() implies (#[trigger] c.metadata[i] matches Some(
        pairs,
    ) ==> ascending(pairs)) by {
        assert(0 <= live[i] < n);
        assert(c.metadata[i] == s.metadata[live[i]]);
    }
    assert forall|id: u64| #[trigger] c.is_live(id) <==> s.is_live(id) by {
        if c.is_live(id) {
            let i = choose|i: int| 0 <= i < c.ids.len() && c.ids[i] == id;
            assert(0 <= live[i] < n && !s.deleted.contains(s.ids[live[i]]));
            assert(s.ids[live[i]] == id);
        }
        if s.is_live(id) {
            let slot = choose|slot: int| 0 <= slot < n && s.ids[slot] == id;
            assert(!s.deleted.contains(s.ids[slot]));
            assert(live.contains(slot));
            let i = choose|i: int| 0 <= i < live.len() && live[i] == slot;
            assert(c.ids[i] == id);
        }
    }
    assert forall|i: int| 0 <= i < c.ids.len() implies {
        let slot = s.ids.index_of(#[trigger] c.ids[i]);
        &&& 0 <= slot < s.ids.len()
        &&& c.vectors[i] == s.vectors[slot]
        &&& c.metadata[i] == s.metadata[slot]
    } by {
        assert(0 <= live[i] < n);
        slot_of_ascending(s.ids, s.header.max_vector_id, live[i]);
    }
}

/// The files of a compacted store, with an empty log, hold exactly the live
/// vectors.
pub proof fn compaction_is_recovered(s: StoreView, padding: Seq<u8>)
    requires
        s.wf(),
        persistable(s.compacted()),
    ensures
        recover(data_file(s.compacted()) + padding, Seq::empty(), meta_file(s.compacted(), None))
            == Ok::<StoreView, ErrorView>(s.compacted()),
{
    let c = s.compacted();
    checkpoint_of_files(c, padding, None);
    assert(entry_at(Seq::empty(), 0) is None);
    assert(read_log(Seq::empty(), 0).0 =~= Seq::empty());
    assert(StoreView { deleted: Set::empty(), ..c } == c);
}

/// A store that was just created is recovered as an empty store.
pub proof fn created_store_is_recovered(dimension: u32, metric: Metric)
    requires
        dimension > 0,
        record_len(FORMAT_VERSION, dimension) <= usize::MAX,
    ensures
        recover(data_file(StoreView::empty(dimension, metric)), Seq::empty(), None) == Ok::<
            StoreView,
            ErrorView,
        >(StoreView::empty(dimension, metric)),
{
    let s = StoreView::empty(dimension, metric);
    let size = record_len(FORMAT_VERSION, dimension);
    assert(0 * size == 0);
    assert(s.ids.len() * size == 0);
    assert(snapshot_bytes(s.ids, s.metadata, 0).len() == 40);
    checkpoint_of_files(s, Seq::empty(), None);
    assert(data_file(s) + Seq::<u8>::empty() =~= data_file(s));
    assert(entry_at(Seq::empty(), 0) is None);
    assert(read_log(Seq::empty(), 0).0 =~= Seq::empty());
    assert(StoreView { deleted: Set::empty(), ..s } == s);
}

/// Whether some entries delete a vector.
pub open spec fn logs_deletion(entries: Seq<EntryView>, id: u64) -> bool {
    exists|i: int|
        0 <= i < entries.len() && (#[trigger] entries[i]).op == WalOp::Delete && entries[i].id == id
}

proof fn replayed_tombstones(s: StoreView, entries: Seq<EntryView>, id: u64)
    requires
        s.replay(entries) is Ok,
    ensures
        (s.replay(entries)->Ok_0).deleted.contains(id) <==> s.deleted.contains(id)
            || logs_deletion(entries, id),
    decreases entries.len(),
{
    if entries.len() > 0 {
        let fewer = entries.drop_last();
        let last = entries.len() - 1;
        replayed_tombstones(s, fewer, id);
        if logs_deletion(fewer, id) {
            let i = choose|i: int|
                0 <= i < fewer.len() && (#[trigger] fewer[i]).op == WalOp::Delete && fewer[i].id
                    == id;
            assert(entries[i] == fewer[i]);
        }
        if logs_deletion(entries, id) && !(entries[last].op == WalOp::Delete && entries[last].id
            == id) {
            let i = choose|i: int|
                0 <= i < entries.len() && (#[trigger] entries[i]).op == WalOp::Delete
                    && entries[i].id == id;
            assert(fewer[i] == entries[i]);
        }
        if entries[last].op == WalOp::Delete && entries[last].id == id {
            assert(logs_deletion(entries, id));
        }
    }
}

/// A deletion lasts until the vector is compacted away: of a recovered store
/// exactly the IDs that its log deletes are deleted.
pub proof fn logged_deletions_last(data: Seq<u8>, wal: Seq<u8>, meta: Option<Seq<u8>>, id: u64)
    requires
        recover(data, wal, meta) is Ok,
    ensures
        (recover(data, wal, meta)->Ok_0).deleted.contains(id) <==> logs_deletion(
            read_log(wal, 0).0,
            id,
        ),
{
    let base = checkpoint(data, parse_file(data)->Ok_0, meta);
    replayed_tombstones(base, read_log(wal, 0).0, id);
}

/// IDs are never reused: the next ID is above every ID in the store and every
/// ID that was assigned before, also after a compaction.
pub proof fn next_id_is_fresh(s: StoreView)
    requires
        s.wf(),
        s.header.max_vector_id < u64::MAX,
    ensures
        !s.ids.contains((s.header.max_vector_id + 1) as u64),
        s.compacted().header.max_vector_id == s.header.max_vector_id,
{
    if s.ids.contains((s.header.max_vector_id + 1) as u64) {
        let i = choose|i: int|
            0 <= i < s.ids.len() && s.ids[i] == (s.header.max_vector_id + 1) as u64;
        assert(s.ids[i] <= s.header.max_vector_id);
    }
}

/// What replay leaves as it was: IDs are only added, above all others, and
/// metadata that is there stays.
proof fn replay_only_adds(base: StoreView, entries: Seq<EntryView>)
    requires
        base.wf(),
        entries_sound(entries),
        base.ids.len() + entries.len() <= u64::MAX,
        base.replay(entries) is Ok,
    ensures
        ({
            let s = base.replay(entries)->Ok_0;
            &&& s.header.max_vector_id >= base.header.max_vector_id
            &&& s.header.max_vector_id == base.header.max_vector_id ==> s.ids == base.ids
                && s.vectors == base.vectors && s.header == base.header
            &&& s.ids.len() >= base.ids.len()
            &&& s.metadata.len() == s.ids.len()
            &&& forall|k: int|
                0 <= k < base.metadata.len() && base.metadata[k] is Some ==> (
                #[trigger] s.metadata[k]) == base.metadata[k]
        }),
    decreases entries.len(),
{
    if entries.len() > 0 {
        let fewer = entries.drop_last();
        sound_prefix(entries);
        replay_only_adds(base, fewer);
        replay_wf(base, fewer);
        let u = base.replay(fewer)->Ok_0;
        let e = entries.last();
        let s = u.step(e)->Ok_0;
        assert forall|k: int| 0 <= k < base.metadata.len() && base.metadata[k] is Some implies (
        #[trigger] s.metadata[k]) == base.metadata[k] by {
            assert(u.metadata[k] == base.metadata[k]);
            if u.lacks_metadata(e.id) {
                assert(u.ids.index_of(e.id) != k);
            }
        }
    }
}

proof fn all_slots_live(s: StoreView, n: nat)
    requires
        n <= s.ids.len(),
        s.live_slots(n).len() == n,
    ensures
        s.live_slots(n) == Seq::new(n, |i: int| i),
    decreases n,
{
    if n > 0 {
        live_slots_in_range(s, (n - 1) as nat);
        all_slots_live(s, (n - 1) as nat);
        assert(s.live_slots(n) =~= Seq::new(n, |i: int| i));
    } else {
        assert(s.live_slots(n) =~= Seq::new(n, |i: int| i));
    }
}

/// A compaction that drops no slot keeps everything.
proof fn full_compaction(s: StoreView)
    requires
        s.wf(),
        s.compacted().ids.len() == s.ids.len(),
    ensures
        s.compacted().ids == s.ids,
        s.compacted().vectors == s.vectors,
        s.compacted().metadata == s.metadata,
{
    let n = s.ids.len();
    all_slots_live(s, n);
    assert(s.compacted().ids =~= s.ids);
    assert(s.compacted().vectors =~= s.vectors);
    assert(s.compacted().metadata =~= s.metadata);
}

/// The snapshot of the replacement does no harm beside the old files, where the
/// old store had no snapshot.
proof fn new_snapshot_fits_old_files(data: Seq<u8>, wal: Seq<u8>, s: StoreView)
    requires
        recover(data, wal, None) == Ok::<StoreView, ErrorView>(s),
        data.len() + wal.len() <= u64::MAX,
        persistable(s.compacted()),
        any_some(s.compacted().metadata),
    ensures
        recover(data, wal, meta_file(s.compacted(), None)) == Ok::<StoreView, ErrorView>(s),
{
    let c = s.compacted();
    let layout = parse_file(data)->Ok_0;
    let entries = read_log(wal, 0).0;
    let base = checkpoint(data, layout, None);
    let m = meta_file(c, None)->0;
    let none = no_metadata(layout.ids.len());
    checkpoint_wf(data, None);
    read_entries_are_sound(wal, 0);
    replay_wf(base, entries);
    replay_only_adds(base, entries);
    if let Ok(slots) = apply_snapshot(m, layout.ids, layout.header.max_vector_id, none) {
        snapshot_names_store(c.ids, c.metadata, c.header.max_vector_id);
        assert(layout.ids.len() == c.ids.len());
        assert(s.ids == layout.ids);
        full_compaction(s);
        snapshot_round_trip(s.ids, s.metadata, s.header.max_vector_id);
        assert(none =~= Seq::new(s.metadata.len(), |i: int| None::<Pairs>));
        assert(slots == s.metadata);
        let again = StoreView { deleted: Set::empty(), ..s };
        assert(checkpoint(data, layout, Some(m)) == again);
        replayed_log_is_settled(base, entries);
        assert forall|i: int| 0 <= i < entries.len() implies entry_settled(
            again,
            #[trigger] entries[i],
        ) by {
            assert(entry_settled(s, entries[i]));
            assert(again.lacks_metadata(entries[i].id) == s.lacks_metadata(entries[i].id));
        }
        settled_log_adds_tombstones(again, entries);
        assert(again.deleted.union(erased_ids(entries)) =~= s.deleted);
    }
}

/// What a snapshot says of the store that it belongs to.
proof fn snapshot_names_store(ids: Seq<u64>, slots: Seq<Option<Pairs>>, max: u64)
    ensures
        u64_at(snapshot_bytes(ids, slots, max), 16) == slots.len() as u64,
        u64_at(snapshot_bytes(ids, slots, max), 24) == max,
{
    let d = snapshot_bytes(ids, slots, max);
    assert(d.subrange(16, 24) =~= u64_bytes(slots.len() as u64));
    assert(d.subrange(24, 32) =~= u64_bytes(max));
    u64_read_back(d, 16, slots.len() as u64);
    u64_read_back(d, 24, max);
}

/// Whether a snapshot is that of a vector file, or of a time when fewer IDs had
/// been assigned.
pub open spec fn snapshot_is_not_newer(m: Seq<u8>, data: Seq<u8>, s: StoreView) -> bool {
    ||| u64_at(m, 24) != s.header.max_vector_id
    ||| parse_file(data) matches Ok(layout) && apply_snapshot(
        m,
        layout.ids,
        layout.header.max_vector_id,
        no_metadata(layout.ids.len()),
    ) is Ok
}

/// The old snapshot does no harm beside the files of the replacement, where the
/// replacement has no metadata.
proof fn old_snapshot_fits_new_files(
    data: Seq<u8>,
    wal: Seq<u8>,
    m: Seq<u8>,
    s: StoreView,
    padding: Seq<u8>,
)
    requires
        recover(data, wal, Some(m)) == Ok::<StoreView, ErrorView>(s),
        data.len() + wal.len() <= u64::MAX,
        snapshot_is_not_newer(m, data, s),
        s.wf(),
        persistable(s.compacted()),
        !any_some(s.compacted().metadata),
    ensures
        recover(data_file(s.compacted()) + padding, Seq::empty(), Some(m)) == Ok::<
            StoreView,
            ErrorView,
        >(s.compacted()),
{
    let c = s.compacted();
    let d = data_file(c) + padding;
    compaction_is_recovered(s, padding);
    file_round_trip(c.header, c.ids, c.vectors, padding);
    let layout = parse_file(data)->Ok_0;
    let entries = read_log(wal, 0).0;
    let base = checkpoint(data, layout, Some(m));
    checkpoint_wf(data, Some(m));
    read_entries_are_sound(wal, 0);
    replay_only_adds(base, entries);
    let none = no_metadata(c.ids.len());
    assert(c.metadata =~= none) by {
        assert forall|i: int| 0 <= i < c.metadata.len() implies c.metadata[i] is None by {}
    }
    if let Ok(slots) = apply_snapshot(m, c.ids, c.header.max_vector_id, none) {
        assert(u64_at(m, 24) == s.header.max_vector_id);
        assert(apply_snapshot(
            m,
            layout.ids,
            layout.header.max_vector_id,
            no_metadata(layout.ids.len()),
        ) is Ok);
        assert(u64_at(m, 16) == c.ids.len() && u64_at(m, 16) == layout.ids.len());
        assert(s.ids == layout.ids);
        full_compaction(s);
        assert(base.metadata == slots);
        applied_len(m, c.ids, c.header.max_vector_id, none);
        assert(slots =~= none) by {
            assert forall|k: int| 0 <= k < slots.len() implies slots[k] is None by {
                if slots[k] is Some {
                    assert(s.metadata[k] == base.metadata[k]);
                    assert(c.metadata[k] is Some);
                }
            }
        }
    }
}

/// The files of a store and of its replacement.
pub open spec fn replacement_of(s: StoreView, padding: Seq<u8>) -> Trio {
    Trio {
        data: data_file(s.compacted()) + padding,
        wal: Seq::empty(),
        meta: meta_file(s.compacted(), None),
    }
}

/// A compaction that is interrupted at any of its steps loses nothing: after
/// recovery the files hold either the store as it was or the compacted store.
pub proof fn interrupted_compaction_loses_nothing(
    old: Trio,
    s: StoreView,
    padding: Seq<u8>,
    k: int,
)
    requires
        recover(old.data, old.wal, old.meta) == Ok::<StoreView, ErrorView>(s),
        old.data.len() + old.wal.len() <= u64::MAX,
        old.meta matches Some(m) ==> snapshot_is_not_newer(m, old.data, s),
        persistable(s.compacted()),
        0 <= k <= 13,
    ensures
        ({
            let f = before_swap(old, replacement_of(s, padding)).after(swap_plan(), k).recovered();
            &&& f.data is Some
            &&& f.wal is Some
            &&& k <= 4 ==> recover(f.data->0, f.wal->0, f.meta) == Ok::<StoreView, ErrorView>(s)
            &&& k > 4 ==> recover(f.data->0, f.wal->0, f.meta) == Ok::<StoreView, ErrorView>(
                s.compacted(),
            )
        }),
{
    let new = replacement_of(s, padding);
    recovered_store_is_well_formed(old.data, old.wal, old.meta);
    interrupted_swap_is_recovered(old, new, k);
    compaction_is_recovered(s, padding);
    let f = before_swap(old, new).after(swap_plan(), k).recovered();
    if 1 <= k <= 4 && f.meta != old.meta {
        assert(old.meta is None);
        assert(any_some(s.compacted().metadata));
        new_snapshot_fits_old_files(old.data, old.wal, s);
    }
    if k > 4 && f.meta != new.meta {
        assert(new.meta is None && f.meta == old.meta);
        assert(!any_some(s.compacted().metadata));
        old_snapshot_fits_new_files(old.data, old.wal, old.meta->0, s, padding);
    }
}

/// Whether an entry inserts a vector under an ID.
pub open spec fn brings(e: EntryView, id: u64, vector: Seq<u32>) -> bool {
    e.op != WalOp::Delete && e.id == id && e.data == Some(vector)
}

/// Whether an entry gives the vector with an ID metadata.
pub open spec fn describes(e: EntryView, id: u64, pairs: Pairs) -> bool {
    e.op != WalOp::Delete && e.id == id && e.metadata == Some(pairs)
}

/// Whether the `j`-th entry of a log inserts a vector under an ID that is larger than
/// every one in the store and in the insertions before it.
pub open spec fn is_new(s: StoreView, entries: Seq<EntryView>, j: int) -> bool {
    &&& entries[j].op != WalOp::Delete
    &&& entries[j].id > s.header.max_vector_id
    &&& forall|x: int|
        0 <= x < j && (#[trigger] entries[x]).op != WalOp::Delete ==> entries[x].id < entries[j].id
}

/// Whether the store `t` is `s` with what a log adds.
pub open spec fn log_added(s: StoreView, t: StoreView, entries: Seq<EntryView>) -> bool {
    &&& t.header.dimension == s.header.dimension && t.header.metric == s.header.metric
    &&& t.ids.len() >= s.ids.len()
    &&& forall|i: int|
        0 <= i < s.ids.len() ==> #[trigger] t.ids[i] == s.ids[i] && t.vectors[i] == s.vectors[i] && (
        s.metadata[i] is Some ==> t.metadata[i] == s.metadata[i])
    &&& forall|i: int|
        s.ids.len() <= i < t.ids.len() ==> s.header.max_vector_id < #[trigger] t.ids[i] && exists|
            j: int,
        |
            0 <= j < entries.len() && brings(#[trigger] entries[j], t.ids[i], t.vectors[i])
    &&& forall|i: int|
        0 <= i < t.ids.len() && (i < s.ids.len() ==> s.metadata[i] is None) && (
        #[trigger] t.metadata[i]) is Some ==> exists|j: int|
            0 <= j < entries.len() && describes(
                #[trigger] entries[j],
                t.ids[i],
                t.metadata[i]->0,
            )
    &&& forall|j: int|
        0 <= j < entries.len() && #[trigger] is_new(s, entries, j) ==> exists|i: int|
            s.ids.len() <= i < t.ids.len() && brings(entries[j], #[trigger] t.ids[i], t.vectors[i])
    &&& forall|id: u64| #[trigger]
        t.deleted.contains(id) <==> s.deleted.contains(id) || exists|j: int|
            0 <= j < entries.len() && (#[trigger] entries[j]).op == WalOp::Delete && entries[j].id
                == id
    &&& t.header.max_vector_id >= s.header.max_vector_id
    &&& t.header.max_vector_id > s.header.max_vector_id ==> exists|j: int|
        0 <= j < entries.len() && (#[trigger] entries[j]).op != WalOp::Delete && entries[j].id
            == t.header.max_vector_id
}

#[verifier::rlimit(50)]
proof fn step_adds(s: StoreView, u: StoreView, t: StoreView, entries: Seq<EntryView>)
    requires
        entries.len() > 0,
        s.wf(),
        u.wf(),
        t.wf(),
        u.ids.len() < u64::MAX,
        log_added(s, u, entries.drop_last()),
        u.step(entries.last()) == Ok::<StoreView, ErrorView>(t),
        entries.last().op == WalOp::Delete || entries.last().data is Some,
    ensures
        log_added(s, t, entries),
{
    let fewer = entries.drop_last();
    let e = entries.last();
    let last = entries.len() - 1;
    assert(entries[last] == e);
    assert(t.ids.len() >= u.ids.len());
    assert forall|i: int| 0 <= i < u.ids.len() implies #[trigger] t.ids[i] == u.ids[i] && t.vectors[i]
        == u.vectors[i] && (u.metadata[i] is Some ==> t.metadata[i] == u.metadata[i]) by {
        if u.ids.contains(e.id) {
            let at = u.ids.index_of(e.id);
            assert(u.ids[at] == e.id);
        }
    }
    assert forall|i: int| s.ids.len() <= i < t.ids.len() implies s.header.max_vector_id
        < #[trigger] t.ids[i] && exists|j: int|
        0 <= j < entries.len() && brings(#[trigger] entries[j], t.ids[i], t.vectors[i]) by {
        if i < u.ids.len() {
            assert(t.ids[i] == u.ids[i]);
            let j = choose|j: int|
                0 <= j < fewer.len() && brings(#[trigger] fewer[j], u.ids[i], u.vectors[i]);
            assert(entries[j] == fewer[j]);
        } else {
            assert(brings(entries[last], t.ids[i], t.vectors[i]));
        }
    }
    assert forall|i: int|
        0 <= i < t.ids.len() && (i < s.ids.len() ==> s.metadata[i] is None) && (
        #[trigger] t.metadata[i]) is Some implies exists|j: int|
        0 <= j < entries.len() && describes(#[trigger] entries[j], t.ids[i], t.metadata[i]->0) by {
        if i < u.ids.len() {
            assert(t.ids[i] == u.ids[i]);
            if u.metadata[i] is Some {
                assert(t.metadata[i] == u.metadata[i]);
                let j = choose|j: int|
                    0 <= j < fewer.len() && describes(
                        #[trigger] fewer[j],
                        u.ids[i],
                        u.metadata[i]->0,
                    );
                assert(entries[j] == fewer[j]);
            } else {
                assert(u.ids[u.ids.index_of(e.id)] == e.id);
                assert(describes(entries[last], t.ids[i], t.metadata[i]->0));
            }
        } else {
            assert(describes(entries[last], t.ids[i], t.metadata[i]->0));
        }
    }
    assert forall|j: int| 0 <= j < entries.len() && #[trigger] is_new(
        s,
        entries,
        j,
    ) implies exists|i: int|
        s.ids.len() <= i < t.ids.len() && brings(entries[j], #[trigger] t.ids[i], t.vectors[i]) by {
        if j < last {
            assert(entries[j] == fewer[j]);
            assert forall|x: int|
                0 <= x < j && (#[trigger] fewer[x]).op != WalOp::Delete implies fewer[x].id
                < fewer[j].id by {
                assert(entries[x] == fewer[x]);
            }
            assert(is_new(s, fewer, j));
            let i = choose|i: int|
                s.ids.len() <= i < u.ids.len() && brings(
                    fewer[j],
                    #[trigger] u.ids[i],
                    u.vectors[i],
                );
            assert(t.ids[i] == u.ids[i]);
            assert(brings(entries[j], t.ids[i], t.vectors[i]));
        } else {
            if u.header.max_vector_id > s.header.max_vector_id {
                let x = choose|x: int|
                    0 <= x < fewer.len() && (#[trigger] fewer[x]).op != WalOp::Delete && fewer[x].id
                        == u.header.max_vector_id;
                assert(entries[x] == fewer[x]);
            }
            assert(e.id > u.header.max_vector_id);
            let i = u.ids.len() as int;
            assert(brings(entries[j], t.ids[i], t.vectors[i]));
        }
    }
    assert forall|id: u64| #[trigger]
        t.deleted.contains(id) <==> s.deleted.contains(id) || exists|j: int|
            0 <= j < entries.len() && (#[trigger] entries[j]).op == WalOp::Delete && entries[j].id
                == id by {
        if u.deleted.contains(id) && !s.deleted.contains(id) {
            let j = choose|j: int|
                0 <= j < fewer.len() && (#[trigger] fewer[j]).op == WalOp::Delete && fewer[j].id
                    == id;
            assert(entries[j] == fewer[j]);
        }
        if exists|j: int|
            0 <= j < entries.len() && (#[trigger] entries[j]).op == WalOp::Delete && entries[j].id
                == id {
            let j = choose|j: int|
                0 <= j < entries.len() && (#[trigger] entries[j]).op == WalOp::Delete
                    && entries[j].id == id;
            if j < last {
                assert(fewer[j] == entries[j]);
            }
        }
    }
    assert forall|i: int| 0 <= i < s.ids.len() implies #[trigger] t.ids[i] == s.ids[i] && t.vectors[i]
        == s.vectors[i] && (s.metadata[i] is Some ==> t.metadata[i] == s.metadata[i]) by {
        assert(u.ids[i] == s.ids[i]);
        assert(t.ids[i] == u.ids[i]);
    }
    if t.header.max_vector_id > s.header.max_vector_id {
        if t.header.max_vector_id == u.header.max_vector_id {
            let j = choose|j: int|
                0 <= j < fewer.len() && (#[trigger] fewer[j]).op != WalOp::Delete && fewer[j].id
                    == u.header.max_vector_id;
            assert(entries[j] == fewer[j]);
        } else {
            assert(entries[last].op != WalOp::Delete && entries[last].id
                == t.header.max_vector_id);
        }
    }
    assert(t.header.dimension == s.header.dimension && t.header.metric == s.header.metric);
}

/// To replay a log adds what it says and nothing else. What the store has stays in its
/// place, with its vector and its metadata. Each vector that is added is that of an
/// insertion under its ID, and each insertion under a new ID adds its vector. Metadata
/// that is added is that of an insertion under the vector's ID. An ID is deleted if it
/// was or if the log deletes it.
pub proof fn replay_adds_what_was_logged(s: StoreView, entries: Seq<EntryView>)
    requires
        s.wf(),
        entries_sound(entries),
        s.ids.len() + entries.len() <= u64::MAX,
        s.replay(entries) is Ok,
    ensures
        log_added(s, s.replay(entries)->Ok_0, entries),
    decreases entries.len(),
{
    if entries.len() > 0 {
        let fewer = entries.drop_last();
        sound_prefix(entries);
        replay_adds_what_was_logged(s, fewer);
        replay_wf(s, fewer);
        replay_wf(s, entries);
        step_adds(s, s.replay(fewer)->Ok_0, s.replay(entries)->Ok_0, entries);
    }
}

/// A log cannot be replayed if and only if one of its insertions under a new ID has a
/// vector of another dimension than the store; the error gives both dimensions.
pub proof fn replay_fails_on_another_dimension(s: StoreView, entries: Seq<EntryView>)
    requires
        s.wf(),
        entries_sound(entries),
        s.ids.len() + entries.len() <= u64::MAX,
    ensures
        s.replay(entries) matches Err(e) ==> exists|j: int|
            0 <= j < entries.len() && #[trigger] is_new(s, entries, j) && {
                let n = entries[j].data->0.len();
                &&& n != s.header.dimension
                &&& e == ErrorView::DimensionMismatch {
                    expected: s.header.dimension,
                    actual: (n % 0x1_0000_0000) as u32,
                }
            },
        forall|j: int|
            0 <= j < entries.len() && #[trigger] is_new(s, entries, j) && entries[j].data->0.len()
                != s.header.dimension ==> s.replay(entries) is Err,
    decreases entries.len(),
{
    if s.replay(entries) is Ok {
        replay_wf(s, entries);
        replay_adds_what_was_logged(s, entries);
        let t = s.replay(entries)->Ok_0;
        assert forall|j: int|
            0 <= j < entries.len() && #[trigger] is_new(
                s,
                entries,
                j,
            ) implies entries[j].data->0.len() == s.header.dimension by {
            let i = choose|i: int|
                s.ids.len() <= i < t.ids.len() && brings(
                    entries[j],
                    #[trigger] t.ids[i],
                    t.vectors[i],
                );
            assert(t.vectors[i].len() == t.header.dimension);
        }
    } else {
        let fewer = entries.drop_last();
        let last = entries.len() - 1;
        sound_prefix(entries);
        replay_fails_on_another_dimension(s, fewer);
        if s.replay(fewer) is Err {
            let e = s.replay(fewer)->Err_0;
            let j = choose|j: int|
                0 <= j < fewer.len() && #[trigger] is_new(s, fewer, j) && {
                    let n = fewer[j].data->0.len();
                    &&& n != s.header.dimension
                    &&& e == ErrorView::DimensionMismatch {
                        expected: s.header.dimension,
                        actual: (n % 0x1_0000_0000) as u32,
                    }
                };
            assert(entries[j] == fewer[j]);
            assert forall|x: int|
                0 <= x < j && (#[trigger] entries[x]).op != WalOp::Delete implies entries[x].id
                < entries[j].id by {
                assert(entries[x] == fewer[x]);
            }
            assert(is_new(s, entries, j));
        } else {
            let u = s.replay(fewer)->Ok_0;
            replay_wf(s, fewer);
            replay_adds_what_was_logged(s, fewer);
            replay_keeps_largest(s, fewer);
            assert forall|x: int|
                0 <= x < last && (#[trigger] entries[x]).op != WalOp::Delete implies entries[x].id
                < entries[last].id by {
                assert(entries[x] == fewer[x]);
            }
            assert(is_new(s, entries, last));
        }
    }
}

proof fn replay_keeps_largest(s: StoreView, entries: Seq<EntryView>)
    requires
        entries_sound(entries),
        s.replay(entries) is Ok,
    ensures
        s.header.max_vector_id <= s.replay(entries)->Ok_0.header.max_vector_id,
        forall|j: int|
            0 <= j < entries.len() && (#[trigger] entries[j]).op != WalOp::Delete ==> entries[j].id
                <= s.replay(entries)->Ok_0.header.max_vector_id,
    decreases entries.len(),
{
    if entries.len() > 0 {
        let fewer = entries.drop_last();
        sound_prefix(entries);
        replay_keeps_largest(s, fewer);
        assert forall|j: int|
            0 <= j < entries.len() && (#[trigger] entries[j]).op
                != WalOp::Delete implies entries[j].id <= s.replay(
            entries,
        )->Ok_0.header.max_vector_id by {
            if j < fewer.len() {
                assert(entries[j] == fewer[j]);
            }
        }
    }
}

/// Recovery is noticed if and only if it brings something back: a vector that the
/// checkpoint lacks, or metadata of one that it has without.
pub proof fn recovery_is_noticed(s: StoreView, entries: Seq<EntryView>)
    requires
        s.wf(),
        entries_sound(entries),
        s.ids.len() + entries.len() <= u64::MAX,
        s.replay(entries) is Ok,
    ensures
        ({
            let t = s.replay(entries)->Ok_0;
            s.recovers(entries) <==> {
                ||| t.ids.len() > s.ids.len()
                ||| exists|i: int|
                    0 <= i < s.ids.len() && s.metadata[i] is None && (
                    #[trigger] t.metadata[i]) is Some
            }
        }),
    decreases entries.len(),
{
    if entries.len() > 0 {
        let fewer = entries.drop_last();
        let e = entries.last();
        sound_prefix(entries);
        recovery_is_noticed(s, fewer);
        replay_wf(s, fewer);
        replay_wf(s, entries);
        replay_adds_what_was_logged(s, fewer);
        let u = s.replay(fewer)->Ok_0;
        let t = s.replay(entries)->Ok_0;
        if u.step_recovers(e) {
            if e.id <= u.header.max_vector_id {
                let at = u.ids.index_of(e.id);
                assert(u.ids[at] == e.id);
                assert(t.metadata[at] is Some);
                if at < s.ids.len() {
                    assert(t.ids[at] == s.ids[at]);
                    assert(u.ids[at] == s.ids[at]);
                    assert(s.metadata[at] is None);
                }
            }
        } else {
            assert(t.ids == u.ids);
            assert(t.metadata == u.metadata);
        }
    }
}

} // verus!

//! What a store goes through from its creation on, and what its files hold of it
//! at any time.
use vstd::prelude::*;

use crate::distance::Metric;
use crate::error::ErrorView;
use crate::metadata::Pairs;
use crate::storage::durability::{batch_prefix_is_recovered, checkpoint_is_recovered,
    checkpoint_of_files, compaction_is_recovered, compaction_keeps_the_live,
    created_store_is_recovered, data_file, logged_delete_is_recovered, logged_insert_is_recovered,
    meta_file, persistable, recovered_store_is_well_formed};
use crate::storage::format::record_len;
use crate::storage::header::FORMAT_VERSION;
use crate::storage::snapshot::any_some;
use crate::storage::vecstore::{batch_log, recover, StoreView};
use crate::storage::wal::{appended_entry_is_read, delete_entry, entry_at, entry_bytes, entry_fits,
    insert_entry, log_is_whole, read_log};

verus! {

/// Something that is done to a store.
pub enum Change {
    /// A vector is inserted, with or without metadata.
    Insert { vector: Seq<u32>, metadata: Option<Pairs> },
    /// A batch of vectors is inserted, each with its entry of `slots` as metadata.
    Batch { batch: Seq<Seq<u32>>, slots: Seq<Option<Pairs>> },
    /// A vector is deleted.
    Delete { id: u64 },
    /// The store is checkpointed.
    Flush,
    /// The store is compacted.
    Compact,
}

/// A store and its files. The vector file and the snapshot are those of the last
/// checkpoint; bytes behind the last record of the file do not matter.
pub struct Kept {
    pub store: StoreView,
    pub checkpoint: StoreView,
    pub wal: Seq<u8>,
}

impl Kept {
    /// A store that was just created.
    pub open spec fn created(dimension: u32, metric: Metric) -> Kept {
        let store = StoreView::empty(dimension, metric);
        Kept { store, checkpoint: store, wal: Seq::empty() }
    }

    /// The snapshot file, if there is one.
    pub open spec fn meta(self) -> Option<Seq<u8>> {
        meta_file(self.checkpoint, None)
    }

    /// What is recovered from the files, with `padding` behind the last record.
    pub open spec fn recovered(self, padding: Seq<u8>) -> Result<StoreView, ErrorView> {
        recover(data_file(self.checkpoint) + padding, self.wal, self.meta())
    }

    /// The store and its files after a change.
    pub open spec fn after(self, change: Change) -> Kept {
        let max = self.store.header.max_vector_id;
        match change {
            Change::Insert { vector, metadata } => Kept {
                store: self.store.inserted((max + 1) as u64, vector, metadata),
                wal: self.wal + entry_bytes(insert_entry((max + 1) as u64, vector, metadata)),
                ..self
            },
            Change::Batch { batch, slots } => Kept {
                store: self.store.batch_inserted(batch, slots, batch.len()),
                wal: self.wal + batch_log(max, batch, slots, batch.len()),
                ..self
            },
            Change::Delete { id } => Kept {
                store: self.store.erased(id),
                wal: self.wal + entry_bytes(delete_entry(id)),
                ..self
            },
            Change::Flush => Kept { checkpoint: self.store, ..self },
            Change::Compact => {
                let store = self.store.compacted();
                Kept { store, checkpoint: store, wal: Seq::empty() }
            },
        }
    }

    /// Whether the files are of a size that the platform can hold.
    pub open spec fn fits(self) -> bool {
        data_file(self.checkpoint).len() + self.wal.len() <= u64::MAX
    }

    /// Whether a change is accepted, and the lengths that it writes fit their
    /// fields and the platform.
    pub open spec fn accepts(self, change: Change) -> bool {
        let max = self.store.header.max_vector_id;
        &&& self.after(change).fits()
        &&& match change {
            Change::Insert { vector, metadata } => {
                &&& max < u64::MAX
                &&& vector.len() == self.store.header.dimension
                &&& entry_fits(insert_entry((max + 1) as u64, vector, metadata))
            },
            Change::Batch { batch, slots } => {
                &&& max + batch.len() <= u64::MAX
                &&& batch.len() == slots.len()
                &&& forall|i: int|
                    0 <= i < batch.len() ==> (#[trigger] batch[i]).len()
                        == self.store.header.dimension
                &&& forall|i: int|
                    0 <= i < batch.len() ==> entry_fits(
                        insert_entry((max + 1 + i) as u64, #[trigger] batch[i], slots[i]),
                    )
            },
            Change::Delete { id } => self.store.is_live(id),
            Change::Flush => persistable(self.store),
            Change::Compact => persistable(self.store.compacted()),
        }
    }

    /// A store and its files after some changes.
    pub open spec fn after_all(self, changes: Seq<Change>) -> Kept
        decreases changes.len(),
    {
        if changes.len() == 0 {
            self
        } else {
            self.after_all(changes.drop_last()).after(changes.last())
        }
    }

    /// Whether each of some changes is accepted in its turn.
    pub open spec fn accepts_all(self, changes: Seq<Change>) -> bool
        decreases changes.len(),
    {
        changes.len() == 0 || (self.accepts_all(changes.drop_last()) && self.after_all(
            changes.drop_last(),
        ).accepts(changes.last()))
    }

    /// Whether the files hold the store: whatever stands behind the last record,
    /// it is recovered from them, and no byte of the log is cut. Every tombstone
    /// is that of an ID that was assigned.
    pub open spec fn is_kept(self) -> bool {
        &&& self.store.wf()
        &&& forall|padding: Seq<u8>| #[trigger]
            self.recovered(padding) == Ok::<StoreView, ErrorView>(self.store)
        &&& log_is_whole(self.wal)
        &&& forall|id: u64| #[trigger]
            self.store.deleted.contains(id) ==> id <= self.store.header.max_vector_id
    }

    /// What holds of a store and its files at any time.
    pub open spec fn in_order(self) -> bool {
        &&& self.is_kept()
        &&& persistable(self.checkpoint)
        &&& self.fits()
        &&& any_some(self.checkpoint.metadata) ==> any_some(self.store.metadata)
    }
}

/// The bytes behind the last record of a vector file do not matter.
proof fn padding_is_ignored(k: Kept, padding: Seq<u8>)
    requires
        persistable(k.checkpoint),
    ensures
        k.recovered(padding) == k.recovered(Seq::empty()),
{
    checkpoint_of_files(k.checkpoint, padding, None);
    checkpoint_of_files(k.checkpoint, Seq::empty(), None);
}

/// A store that was just created is kept in its files.
proof fn created_in_order(dimension: u32, metric: Metric)
    requires
        dimension > 0,
        record_len(FORMAT_VERSION, dimension) <= usize::MAX,
    ensures
        Kept::created(dimension, metric).in_order(),
{
    let k = Kept::created(dimension, metric);
    created_store_is_recovered(dimension, metric);
    assert(data_file(k.store) + Seq::<u8>::empty() =~= data_file(k.store));
    assert(k.recovered(Seq::empty()) == Ok::<StoreView, ErrorView>(k.store));
    assert forall|padding: Seq<u8>| #[trigger]
        k.recovered(padding) == Ok::<StoreView, ErrorView>(k.store) by {
        padding_is_ignored(k, padding);
    }
    assert(entry_at(Seq::empty(), 0) is None);
}

proof fn batch_adds(s: StoreView, batch: Seq<Seq<u32>>, metadata: Seq<Option<Pairs>>, n: nat)
    requires
        s.header.max_vector_id + n <= u64::MAX,
    ensures
        ({
            let t = s.batch_inserted(batch, metadata, n);
            &&& t.deleted == s.deleted
            &&& t.header.max_vector_id == s.header.max_vector_id + n
            &&& t.metadata.len() == s.metadata.len() + n
            &&& forall|i: int|
                0 <= i < s.metadata.len() ==> #[trigger] t.metadata[i] == s.metadata[i]
        }),
    decreases n,
{
    if n > 0 {
        batch_adds(s, batch, metadata, (n - 1) as nat);
    }
}

/// The files go on holding the store as it is added to and deleted from.
proof fn logged_change_in_order(k: Kept, change: Change)
    requires
        k.in_order(),
        k.accepts(change),
        change is Insert || change is Batch || change is Delete,
    ensures
        k.after(change).in_order(),
{
    let s = k.store;
    let t = k.after(change);
    let data = data_file(k.checkpoint) + Seq::<u8>::empty();
    assert(data.len() == data_file(k.checkpoint).len());
    assert(k.recovered(Seq::empty()) == Ok::<StoreView, ErrorView>(s));
    match change {
        Change::Insert { vector, metadata } => {
            logged_insert_is_recovered(data, k.wal, k.meta(), s, vector, metadata);
            appended_entry_is_read(
                k.wal,
                insert_entry((s.header.max_vector_id + 1) as u64, vector, metadata),
            );
            assert(forall|i: int|
                0 <= i < s.metadata.len() ==> #[trigger] t.store.metadata[i] == s.metadata[i]);
        },
        Change::Batch { batch, slots } => {
            let next = delete_entry(0);
            assert(entry_fits(next));
            batch_prefix_is_recovered(
                data,
                k.wal,
                k.meta(),
                s,
                batch,
                slots,
                batch.len(),
                next,
                0,
            );
            batch_adds(s, batch, slots, batch.len());
        },
        Change::Delete { id } => {
            assert(entry_fits(delete_entry(id)));
            logged_delete_is_recovered(data, k.wal, k.meta(), s, id);
            appended_entry_is_read(k.wal, delete_entry(id));
            let slot = choose|slot: int| 0 <= slot < s.ids.len() && s.ids[slot] == id;
            assert(s.ids[slot] <= s.header.max_vector_id);
        },
        _ => {},
    }
    assert(t.recovered(Seq::empty()) == Ok::<StoreView, ErrorView>(t.store));
    recovered_store_is_well_formed(data, t.wal, t.meta());
    assert forall|padding: Seq<u8>| #[trigger]
        t.recovered(padding) == Ok::<StoreView, ErrorView>(t.store) by {
        padding_is_ignored(t, padding);
    }
    if any_some(k.checkpoint.metadata) {
        let i = choose|i: int| 0 <= i < s.metadata.len() && #[trigger] s.metadata[i] is Some;
        assert(t.store.metadata[i] is Some);
    }
}

/// The files hold the store once it is checkpointed or compacted.
proof fn rewritten_in_order(k: Kept, change: Change)
    requires
        k.in_order(),
        k.accepts(change),
        change is Flush || change is Compact,
    ensures
        k.after(change).in_order(),
{
    let s = k.store;
    let t = k.after(change);
    let data = data_file(k.checkpoint) + Seq::<u8>::empty();
    assert(data.len() == data_file(k.checkpoint).len());
    assert(k.recovered(Seq::empty()) == Ok::<StoreView, ErrorView>(s));
    if change is Flush {
        checkpoint_is_recovered(data, k.wal, k.meta(), s, Seq::empty());
        assert(meta_file(s, k.meta()) == meta_file(s, None));
    } else {
        compaction_keeps_the_live(s);
        compaction_is_recovered(s, Seq::empty());
        assert(entry_at(Seq::empty(), 0) is None);
    }
    assert(t.recovered(Seq::empty()) == Ok::<StoreView, ErrorView>(t.store));
    assert forall|padding: Seq<u8>| #[trigger]
        t.recovered(padding) == Ok::<StoreView, ErrorView>(t.store) by {
        padding_is_ignored(t, padding);
    }
}

proof fn all_in_order(k: Kept, changes: Seq<Change>)
    requires
        k.in_order(),
        k.accepts_all(changes),
    ensures
        k.after_all(changes).in_order(),
    decreases changes.len(),
{
    if changes.len() > 0 {
        let fewer = changes.drop_last();
        all_in_order(k, fewer);
        let before = k.after_all(fewer);
        let change = changes.last();
        if change is Flush || change is Compact {
            rewritten_in_order(before, change);
        } else {
            logged_change_in_order(before, change);
        }
    }
}

/// Nothing that was acknowledged is ever lost: whatever is done to a store from
/// its creation on, insertions, deletions, checkpoints and compactions in any
/// order, its files give back the very store, with or without a last checkpoint.
/// The log that is read is whole, so opening the store cuts nothing from it and
/// opening it again gives the same.
pub proof fn history_is_recovered(
    dimension: u32,
    metric: Metric,
    changes: Seq<Change>,
    padding: Seq<u8>,
)
    requires
        dimension > 0,
        record_len(FORMAT_VERSION, dimension) <= usize::MAX,
        Kept::created(dimension, metric).accepts_all(changes),
    ensures
        ({
            let k = Kept::created(dimension, metric).after_all(changes);
            &&& k.store.wf()
            &&& k.recovered(padding) == Ok::<StoreView, ErrorView>(k.store)
            &&& k.wal.take(read_log(k.wal, 0).1) == k.wal
            &&& forall|id: u64| #[trigger]
                k.store.deleted.contains(id) ==> id <= k.store.header.max_vector_id
        }),
{
    let k = Kept::created(dimension, metric);
    created_in_order(dimension, metric);
    all_in_order(k, changes);
    let end = k.after_all(changes);
    assert(end.recovered(padding) == Ok::<StoreView, ErrorView>(end.store));
    assert(end.wal.take(end.wal.len() as int) =~= end.wal);
}

/// A checkpoint at the end of a history, such as opening a store makes where it
/// replayed something, changes nothing of what is recovered.
pub proof fn reopening_keeps_the_store(
    dimension: u32,
    metric: Metric,
    changes: Seq<Change>,
    padding: Seq<u8>,
)
    requires
        dimension > 0,
        record_len(FORMAT_VERSION, dimension) <= usize::MAX,
        Kept::created(dimension, metric).accepts_all(changes),
        Kept::created(dimension, metric).after_all(changes).accepts(Change::Flush),
    ensures
        ({
            let k = Kept::created(dimension, metric).after_all(changes);
            k.after(Change::Flush).recovered(padding) == k.recovered(padding)
        }),
{
    history_is_recovered(dimension, metric, changes, padding);
    let more = changes.push(Change::Flush);
    assert(more.drop_last() =~= changes);
    history_is_recovered(dimension, metric, more, padding);
}

} // verus!

//! The metadata snapshot, a checkpoint of the metadata of every slot.
//!
//! ```text
//! Offset  Size  Field
//! ------  ----  -----
//! 0       4     Magic bytes: b"QVMD"
//! 4       1     Snapshot version (1)
//! 5       3     Reserved (zeroed)
//! 8       8     Number of entries (u64, little-endian)
//! 16      8     Number of vectors in the store (u64, little-endian)
//! 24      8     Largest vector ID assigned so far (u64, little-endian)
//! 32      4     CRC32 of the bytes [0..32)
//! 36      ...   Entries: [u64 vector ID][u32 len][encoded metadata]
//! end-4   4     CRC32 of the entries
//! ```
use vstd::prelude::*;
use vstd::slice::slice_subrange;
use vstd::string::*;

use crate::bytes::{get_u32, get_u64, put_u32, put_u64, u32_at, u32_bytes, u32_read_back, u64_at,
    u64_bytes, u64_read_back};
use crate::checksum::{checksum, crc32};
use crate::error::{invalid, ErrorView, QuiverError};
use crate::metadata::{ascending, listing, listing_of_pairs, pairs_map, Metadata, Pairs,
    ValueView};
use crate::metadata_encoding::{len_field, malformed, metadata_bytes, metadata_round_trip, pairs_fit,
    parse_metadata, parsed_metadata_is_listed};
use crate::storage::format::ids_ascend;
use crate::text::{decimal, phrase};

verus! {

/// Version of the snapshot format.
pub const META_FORMAT_VERSION: u8 = 1;

/// Size of the snapshot's header, its checksum included.
pub const META_HEADER_SIZE: usize = 36;

/// The bytes that identify a snapshot: "QVMD".
pub open spec fn meta_magic() -> Seq<u8> {
    seq![81u8, 86u8, 77u8, 68u8]
}

/// The slot that holds a vector ID.
pub open spec fn slot_of(ids: Seq<u64>, id: u64) -> Option<int> {
    if ids.contains(id) {
        Some(ids.index_of(id))
    } else {
        None
    }
}

/// The views of the metadata of every slot.
pub open spec fn slot_views(slots: Seq<Option<Metadata>>) -> Seq<Option<Pairs>> {
    Seq::new(
        slots.len(),
        |i: int|
            match slots[i] {
                Some(md) => Some(md@),
                None => None,
            },
    )
}

/// How many of the slots from `from` on have metadata.
pub open spec fn some_count(slots: Seq<Option<Pairs>>, from: int) -> nat
    decreases slots.len() - from,
{
    if from >= slots.len() {
        0
    } else {
        some_count(slots, from + 1) + (if slots[from] is Some { 1nat } else { 0nat })
    }
}

/// The header of a snapshot, without its checksum.
pub open spec fn snapshot_header(entries: u64, count: u64, max: u64) -> Seq<u8> {
    meta_magic() + seq![META_FORMAT_VERSION, 0u8, 0u8, 0u8] + u64_bytes(entries) + u64_bytes(count)
        + u64_bytes(max)
}

/// One entry of a snapshot.
pub open spec fn snapshot_entry(id: u64, pairs: Pairs) -> Seq<u8> {
    u64_bytes(id) + u32_bytes(len_field(metadata_bytes(pairs).len())) + metadata_bytes(pairs)
}

/// The entries of the slots from `from` on.
pub open spec fn snapshot_body(ids: Seq<u64>, slots: Seq<Option<Pairs>>, from: int) -> Seq<u8>
    decreases slots.len() - from,
{
    if from >= slots.len() {
        Seq::empty()
    } else {
        (match slots[from] {
            Some(pairs) => snapshot_entry(ids[from], pairs),
            None => Seq::empty(),
        }) + snapshot_body(ids, slots, from + 1)
    }
}

/// A snapshot of the metadata in `slots`.
pub open spec fn snapshot_bytes(ids: Seq<u64>, slots: Seq<Option<Pairs>>, max: u64) -> Seq<u8> {
    let header = snapshot_header(some_count(slots, 0) as u64, slots.len() as u64, max);
    let body = snapshot_body(ids, slots, 0);
    header + u32_bytes(crc32(header)) + body + u32_bytes(crc32(body))
}

/// What a snapshot's `count` entries from `at` on add to `slots`, and where they
/// end. `body` is what follows the snapshot's header, and its entries end at
/// `end`.
pub open spec fn parse_entries(
    body: Seq<u8>,
    end: int,
    at: int,
    count: nat,
    ids: Seq<u64>,
    slots: Seq<Option<Pairs>>,
) -> Result<(Seq<Option<Pairs>>, int), ErrorView>
    decreases count,
{
    if count == 0 {
        Ok((slots, at))
    } else if at + 8 > end {
        malformed("metadata snapshot entry truncated"@)
    } else if at + 12 > end {
        malformed("metadata snapshot entry length invalid"@)
    } else {
        let id = u64_at(body, at);
        let next = at + 12 + u32_at(body, at + 8);
        if next > usize::MAX {
            malformed("metadata snapshot entry overflow"@)
        } else if next > body.len() {
            malformed("metadata snapshot entry truncated"@)
        } else {
            match parse_metadata(body.subrange(at + 12, next)) {
                Err(e) => Err(e),
                Ok(map) => match slot_of(ids, id) {
                    None => malformed(
                        "metadata snapshot references unknown vector "@ + decimal(id as nat) + ""@,
                    ),
                    Some(slot) => if slots[slot] is Some {
                        malformed(
                            "metadata snapshot has duplicate entry for vector "@ + decimal(
                                id as nat,
                            ) + ""@,
                        )
                    } else {
                        parse_entries(
                            body,
                            end,
                            next,
                            (count - 1) as nat,
                            ids,
                            slots.update(slot, Some(listing(map))),
                        )
                    },
                },
            }
        }
    }
}

/// `slots` with what a snapshot adds to them, given the checksums of its header
/// and its entries, or what is wrong with it. The store has the vectors `ids`
/// and has assigned IDs up to `max`.
pub open spec fn apply_with_sums(
    d: Seq<u8>,
    ids: Seq<u64>,
    max: u64,
    slots: Seq<Option<Pairs>>,
    header_sum: u32,
    body_sum: u32,
) -> Result<Seq<Option<Pairs>>, ErrorView> {
    if d.len() < META_HEADER_SIZE {
        malformed("metadata snapshot too short"@)
    } else if d.subrange(0, 4) != meta_magic() {
        malformed("invalid metadata snapshot magic"@)
    } else if d[4] != META_FORMAT_VERSION {
        malformed("unsupported metadata snapshot version: "@ + decimal(d[4] as nat) + ""@)
    } else if header_sum != u32_at(d, 32) {
        malformed("metadata snapshot header checksum mismatch"@)
    } else if u64_at(d, 16) != ids.len() || u64_at(d, 24) != max {
        malformed("metadata snapshot does not match store"@)
    } else if d.len() < META_HEADER_SIZE + 4 {
        malformed("metadata snapshot body truncated"@)
    } else if body_sum != u32_at(d, d.len() - 4) {
        malformed("metadata snapshot body checksum mismatch"@)
    } else {
        let body = d.subrange(META_HEADER_SIZE as int, d.len() as int);
        match parse_entries(body, body.len() - 4, 0, u64_at(d, 8) as nat, ids, slots) {
            Err(e) => Err(e),
            Ok((filled, at)) => if at != body.len() - 4 {
                malformed("trailing bytes in metadata snapshot body"@)
            } else {
                Ok(filled)
            },
        }
    }
}

/// `slots` with what a snapshot adds to them, or what is wrong with it.
pub open spec fn apply_snapshot(
    d: Seq<u8>,
    ids: Seq<u64>,
    max: u64,
    slots: Seq<Option<Pairs>>,
) -> Result<Seq<Option<Pairs>>, ErrorView> {
    apply_with_sums(
        d,
        ids,
        max,
        slots,
        crc32(d.subrange(0, META_HEADER_SIZE - 4)),
        crc32(d.subrange(META_HEADER_SIZE as int, d.len() - 4)),
    )
}

/// Whether a snapshot can hold the metadata of these slots.
pub open spec fn snapshot_fits(slots: Seq<Option<Pairs>>) -> bool {
    forall|i: int|
        0 <= i < slots.len() ==> (#[trigger] slots[i] matches Some(pairs) ==> ascending(pairs)
            && pairs_fit(pairs) && metadata_bytes(pairs).len() < 0x1_0000_0000)
}

/// An ID is found in the slot that holds it.
pub proof fn slot_of_ascending(ids: Seq<u64>, max: u64, slot: int)
    requires
        ids_ascend(ids, max),
        0 <= slot < ids.len(),
    ensures
        slot_of(ids, ids[slot]) == Some(slot),
{
    let i = ids.index_of(ids[slot]);
    assert(ids[i] == ids[slot]);
}

/// The slot that holds `id`, by binary search.
pub fn find_slot(ids: &Vec<u64>, id: u64) -> (slot: Option<usize>)
    requires
        forall|i: int, j: int| 0 <= i < j < ids@.len() ==> ids@[i] < ids@[j],
    ensures
        match slot {
            Some(s) => slot_of(ids@, id) == Some(s as int) && s < ids@.len() && ids@[s as int] == id,
            None => slot_of(ids@, id) is None && !ids@.contains(id),
        },
{
    let mut low: usize = 0;
    let mut high: usize = ids.len();
    while low < high
        invariant
            low <= high <= ids@.len(),
            forall|i: int, j: int| 0 <= i < j < ids@.len() ==> ids@[i] < ids@[j],
            forall|i: int| 0 <= i < low ==> ids@[i] < id,
            forall|i: int| high <= i < ids@.len() ==> id < ids@[i],
        decreases high - low,
    {
        let mid: usize = low + (high - low) / 2;
        if ids[mid] == id {
            proof {
                assert(ids@[ids@.index_of(id)] == id);
            }
            return Some(mid);
        }
        if ids[mid] < id {
            low = mid + 1;
        } else {
            high = mid;
        }
    }
    None
}

/// Whether any slot has metadata.
pub open spec fn any_some(slots: Seq<Option<Pairs>>) -> bool {
    exists|i: int| 0 <= i < slots.len() && #[trigger] slots[i] is Some
}

/// How many slots have metadata.
pub fn count_some(slots: &Vec<Option<Metadata>>) -> (n: usize)
    ensures
        n == some_count(slot_views(slots@), 0),
        n > 0 <==> any_some(slot_views(slots@)),
{
    let mut i: usize = slots.len();
    let mut n: usize = 0;
    let ghost views = slot_views(slots@);
    while i > 0
        invariant
            i <= slots.len(),
            views == slot_views(slots@),
            n <= slots.len() - i,
            n == some_count(views, i as int),
            n > 0 <==> exists|j: int| i <= j < views.len() && #[trigger] views[j] is Some,
        decreases i,
    {
        i = i - 1;
        let has: bool = slots[i].is_some();
        assert(views[i as int] is Some <==> has);
        if has {
            n = n + 1;
        }
    }
    n
}

/// Writes a snapshot of the metadata in `slots`.
pub fn serialize_meta_snapshot(
    ids: &Vec<u64>,
    slots: &Vec<Option<Metadata>>,
    max_vector_id: u64,
) -> (out: Vec<u8>)
    requires
        ids@.len() == slots@.len(),
    ensures
        out@ == snapshot_bytes(ids@, slot_views(slots@), max_vector_id),
{
    let ghost views = slot_views(slots@);
    let mut header: Vec<u8> = Vec::new();
    header.push(81);
    header.push(86);
    header.push(77);
    header.push(68);
    header.push(META_FORMAT_VERSION);
    header.push(0);
    header.push(0);
    header.push(0);
    assert(header@ =~= meta_magic() + seq![META_FORMAT_VERSION, 0u8, 0u8, 0u8]);
    let entry_count: usize = count_some(slots);
    put_u64(&mut header, entry_count as u64);
    put_u64(&mut header, slots.len() as u64);
    put_u64(&mut header, max_vector_id);
    assert(header@ =~= snapshot_header(entry_count as u64, slots@.len() as u64, max_vector_id));

    let mut body: Vec<u8> = Vec::new();
    let ghost whole = snapshot_body(ids@, views, 0);
    assert(body@ + whole =~= whole);
    for i in 0..slots.len()
        invariant
            ids@.len() == slots@.len(),
            views == slot_views(slots@),
            body@ + snapshot_body(ids@, views, i as int) == whole,
    {
        let ghost before = body@;
        if let Some(md) = &slots[i] {
            put_u64(&mut body, ids[i]);
            let encoded = md.to_bytes();
            put_u32(&mut body, (encoded.len() as u64 % 0x1_0000_0000) as u32);
            body.extend_from_slice(encoded.as_slice());
            assert(body@ =~= before + snapshot_entry(ids@[i as int], md@));
            assert(views[i as int] == Some(md@));
        } else {
            assert(views[i as int] is None);
        }
        assert(body@ + snapshot_body(ids@, views, i + 1) =~= before + snapshot_body(
            ids@,
            views,
            i as int,
        ));
    }
    assert(body@ =~= whole);

    let header_sum: u32 = checksum(header.as_slice());
    put_u32(&mut header, header_sum);
    let body_sum: u32 = checksum(body.as_slice());
    header.extend_from_slice(body.as_slice());
    put_u32(&mut header, body_sum);
    assert(header@ =~= snapshot_bytes(ids@, views, max_vector_id));
    header
}

/// Reads the entries of a snapshot into a copy of `slots`.
fn read_snapshot_entries(
    body: &[u8],
    end: usize,
    entry_count: u64,
    ids: &Vec<u64>,
    slots: &Vec<Option<Metadata>>,
) -> (result: Result<(Vec<Option<Metadata>>, usize), QuiverError>)
    requires
        end <= body.len(),
        ids@.len() == slots@.len(),
        forall|i: int, j: int| 0 <= i < j < ids@.len() ==> ids@[i] < ids@[j],
    ensures
        match result {
            Ok((filled, at)) => parse_entries(
                body@,
                end as int,
                0,
                entry_count as nat,
                ids@,
                slot_views(slots@),
            ) == Ok::<(Seq<Option<Pairs>>, int), ErrorView>((slot_views(filled@), at as int)),
            Err(e) => parse_entries(
                body@,
                end as int,
                0,
                entry_count as nat,
                ids@,
                slot_views(slots@),
            ) == Err::<(Seq<Option<Pairs>>, int), ErrorView>(e@),
        },
{
    let mut filled: Vec<Option<Metadata>> = clone_slots(slots);
    let mut at: usize = 0;
    let mut left: u64 = entry_count;
    let ghost goal = parse_entries(
        body@,
        end as int,
        0,
        entry_count as nat,
        ids@,
        slot_views(slots@),
    );
    while left > 0
        invariant
            end <= body.len(),
            at <= body.len(),
            ids@.len() == filled@.len(),
            forall|i: int, j: int| 0 <= i < j < ids@.len() ==> ids@[i] < ids@[j],
            parse_entries(body@, end as int, at as int, left as nat, ids@, slot_views(filled@))
                == goal,
            goal == parse_entries(
                body@,
                end as int,
                0,
                entry_count as nat,
                ids@,
                slot_views(slots@),
            ),
        decreases left,
    {
        if at > end || end - at < 8 {
            return Err(invalid("metadata snapshot entry truncated"));
        }
        if end - at < 12 {
            return Err(invalid("metadata snapshot entry length invalid"));
        }
        let vector_id: u64 = get_u64(body, at);
        let meta_len: usize = get_u32(body, at + 8) as usize;
        let start: usize = at + 12;
        let next: usize = match start.checked_add(meta_len) {
            Some(next) => next,
            None => return Err(invalid("metadata snapshot entry overflow")),
        };
        if next > body.len() {
            return Err(invalid("metadata snapshot entry truncated"));
        }
        let metadata = match Metadata::from_bytes(slice_subrange(body, start, next)) {
            Ok(md) => md,
            Err(e) => return Err(e),
        };
        proof {
            use_type_invariant(&metadata);
            listing_of_pairs(metadata@);
        }
        let slot: usize = match find_slot(ids, vector_id) {
            Some(slot) => slot,
            None => return Err(QuiverError::InvalidFormat(
                phrase("metadata snapshot references unknown vector ", vector_id, ""))),
        };
        let ghost views = slot_views(filled@);
        let taken: bool = filled[slot].is_some();
        assert(taken <==> views[slot as int] is Some);
        if taken {
            return Err(QuiverError::InvalidFormat(
                phrase("metadata snapshot has duplicate entry for vector ", vector_id, "")));
        }
        let ghost pairs = metadata@;
        filled.set(slot, Some(metadata));
        assert(slot_views(filled@) =~= views.update(slot as int, Some(pairs)));
        at = next;
        left = left - 1;
    }
    Ok((filled, at))
}

/// A copy of the metadata of every slot.
pub fn clone_slots(slots: &Vec<Option<Metadata>>) -> (copy: Vec<Option<Metadata>>)
    ensures
        slot_views(copy@) == slot_views(slots@),
        copy@.len() == slots@.len(),
{
    let mut copy: Vec<Option<Metadata>> = Vec::with_capacity(slots.len());
    for i in 0..slots.len()
        invariant
            slot_views(copy@) == slot_views(slots@).take(i as int),
            copy@.len() == i,
    {
        let ghost before = slot_views(copy@);
        let item = clone_slot(&slots[i]);
        copy.push(item);
        assert(slot_views(copy@) =~= before.push(slot_views(slots@)[i as int]));
        assert(slot_views(copy@) =~= slot_views(slots@).take(i + 1));
    }
    assert(slot_views(copy@) =~= slot_views(slots@));
    copy
}

/// The view of the metadata of one slot.
pub open spec fn slot_view(slot: Option<Metadata>) -> Option<Pairs> {
    match slot {
        Some(md) => Some(md@),
        None => None,
    }
}

/// A copy of the metadata of one slot.
pub fn clone_slot(slot: &Option<Metadata>) -> (copy: Option<Metadata>)
    ensures
        slot_view(copy) == slot_view(*slot),
{
    match slot {
        Some(md) => Some(md.clone()),
        None => None,
    }
}

/// Checks a snapshot, given the checksums of its header and its entries, and
/// adds it to a copy of `slots`.
pub fn apply_snapshot_with_sums(
    data: &[u8],
    ids: &Vec<u64>,
    max_vector_id: u64,
    slots: &Vec<Option<Metadata>>,
    header_sum: u32,
    body_sum: u32,
) -> (result: Result<Vec<Option<Metadata>>, QuiverError>)
    requires
        ids@.len() == slots@.len(),
        forall|i: int, j: int| 0 <= i < j < ids@.len() ==> ids@[i] < ids@[j],
    ensures
        match result {
            Ok(filled) => apply_with_sums(
                data@,
                ids@,
                max_vector_id,
                slot_views(slots@),
                header_sum,
                body_sum,
            ) == Ok::<Seq<Option<Pairs>>, ErrorView>(slot_views(filled@)),
            Err(e) => apply_with_sums(
                data@,
                ids@,
                max_vector_id,
                slot_views(slots@),
                header_sum,
                body_sum,
            ) == Err::<Seq<Option<Pairs>>, ErrorView>(e@),
        },
{
    if data.len() < META_HEADER_SIZE {
        return Err(invalid("metadata snapshot too short"));
    }
    if !(data[0] == 81 && data[1] == 86 && data[2] == 77 && data[3] == 68) {
        proof {
            let s = data@.subrange(0, 4);
            assert(s[0] == data@[0] && s[1] == data@[1] && s[2] == data@[2] && s[3] == data@[3]);
        }
        return Err(invalid("invalid metadata snapshot magic"));
    }
    assert(data@.subrange(0, 4) =~= meta_magic());
    if data[4] != META_FORMAT_VERSION {
        return Err(QuiverError::InvalidFormat(
            phrase("unsupported metadata snapshot version: ", data[4] as u64, "")));
    }
    let entry_count: u64 = get_u64(data, 8);
    let store_len: u64 = get_u64(data, 16);
    let snapshot_max: u64 = get_u64(data, 24);
    if header_sum != get_u32(data, 32) {
        return Err(invalid("metadata snapshot header checksum mismatch"));
    }
    if store_len != ids.len() as u64 || snapshot_max != max_vector_id {
        return Err(invalid("metadata snapshot does not match store"));
    }
    if data.len() < META_HEADER_SIZE + 4 {
        return Err(invalid("metadata snapshot body truncated"));
    }
    if body_sum != get_u32(data, data.len() - 4) {
        return Err(invalid("metadata snapshot body checksum mismatch"));
    }
    let body = slice_subrange(data, META_HEADER_SIZE, data.len());
    let body_end: usize = body.len() - 4;
    match read_snapshot_entries(body, body_end, entry_count, ids, slots) {
        Err(e) => Err(e),
        Ok((filled, at)) => {
            if at != body_end {
                return Err(invalid("trailing bytes in metadata snapshot body"));
            }
            Ok(filled)
        },
    }
}

/// Checks a snapshot and adds it to a copy of `slots`.
pub fn apply_meta_snapshot(
    data: &[u8],
    ids: &Vec<u64>,
    max_vector_id: u64,
    slots: &Vec<Option<Metadata>>,
) -> (result: Result<Vec<Option<Metadata>>, QuiverError>)
    requires
        ids@.len() == slots@.len(),
        forall|i: int, j: int| 0 <= i < j < ids@.len() ==> ids@[i] < ids@[j],
    ensures
        match result {
            Ok(filled) => apply_snapshot(data@, ids@, max_vector_id, slot_views(slots@)) == Ok::<
                Seq<Option<Pairs>>,
                ErrorView,
            >(slot_views(filled@)),
            Err(e) => apply_snapshot(data@, ids@, max_vector_id, slot_views(slots@)) == Err::<
                Seq<Option<Pairs>>,
                ErrorView,
            >(e@),
        },
{
    let header_sum: u32 = if data.len() < META_HEADER_SIZE {
        0
    } else {
        checksum(slice_subrange(data, 0, META_HEADER_SIZE - 4))
    };
    let body_sum: u32 = if data.len() < META_HEADER_SIZE + 4 {
        0
    } else {
        checksum(slice_subrange(data, META_HEADER_SIZE, data.len() - 4))
    };
    apply_snapshot_with_sums(data, ids, max_vector_id, slots, header_sum, body_sum)
}

proof fn entries_keep_len(
    body: Seq<u8>,
    end: int,
    at: int,
    count: nat,
    ids: Seq<u64>,
    slots: Seq<Option<Pairs>>,
)
    requires
        ids.len() == slots.len(),
    ensures
        parse_entries(body, end, at, count, ids, slots) matches Ok((filled, _)) ==> filled.len()
            == slots.len(),
    decreases count,
{
    if count > 0 {
        if let Ok(map) = parse_metadata(
            body.subrange(at + 12, at + 12 + u32_at(body, at + 8)),
        ) {
            if let Some(slot) = slot_of(ids, u64_at(body, at)) {
                assert(ids[slot] == u64_at(body, at));
                entries_keep_len(
                    body,
                    end,
                    at + 12 + u32_at(body, at + 8),
                    (count - 1) as nat,
                    ids,
                    slots.update(slot, Some(listing(map))),
                );
            }
        }
    }
}

/// A snapshot adds to the slots, it does not change how many there are.
pub proof fn applied_len(d: Seq<u8>, ids: Seq<u64>, max: u64, slots: Seq<Option<Pairs>>)
    requires
        ids.len() == slots.len(),
    ensures
        apply_snapshot(d, ids, max, slots) matches Ok(filled) ==> filled.len() == slots.len(),
{
    let body = d.subrange(META_HEADER_SIZE as int, d.len() as int);
    entries_keep_len(body, body.len() - 4, 0, u64_at(d, 8) as nat, ids, slots);
}

/// Whether the metadata of every slot has its keys in order.
pub open spec fn slots_ascend(slots: Seq<Option<Pairs>>) -> bool {
    forall|i: int|
        0 <= i < slots.len() ==> (#[trigger] slots[i] matches Some(pairs) ==> ascending(pairs))
}

proof fn entries_keep_order(
    body: Seq<u8>,
    end: int,
    at: int,
    count: nat,
    ids: Seq<u64>,
    slots: Seq<Option<Pairs>>,
)
    requires
        ids.len() == slots.len(),
        slots_ascend(slots),
    ensures
        parse_entries(body, end, at, count, ids, slots) matches Ok((filled, _)) ==> slots_ascend(
            filled,
        ),
    decreases count,
{
    if count > 0 {
        let bytes = body.subrange(at + 12, at + 12 + u32_at(body, at + 8));
        parsed_metadata_is_listed(bytes);
        if let Ok(map) = parse_metadata(bytes) {
            if let Some(slot) = slot_of(ids, u64_at(body, at)) {
                assert(ids[slot] == u64_at(body, at));
                entries_keep_order(
                    body,
                    end,
                    at + 12 + u32_at(body, at + 8),
                    (count - 1) as nat,
                    ids,
                    slots.update(slot, Some(listing(map))),
                );
            }
        }
    }
}

/// Whatever metadata a snapshot adds has its keys in order.
pub proof fn applied_metadata_ascends(
    d: Seq<u8>,
    ids: Seq<u64>,
    max: u64,
    slots: Seq<Option<Pairs>>,
)
    requires
        ids.len() == slots.len(),
        slots_ascend(slots),
    ensures
        apply_snapshot(d, ids, max, slots) matches Ok(filled) ==> slots_ascend(filled),
{
    let body = d.subrange(META_HEADER_SIZE as int, d.len() as int);
    entries_keep_order(body, body.len() - 4, 0, u64_at(d, 8) as nat, ids, slots);
}

/// The slots with the metadata of those below `k` only.
pub open spec fn filled_below(slots: Seq<Option<Pairs>>, k: int) -> Seq<Option<Pairs>> {
    Seq::new(slots.len(), |i: int| if i < k { slots[i] } else { None })
}

/// What stands where an entry with the bytes `m` stands.
proof fn entry_fields(body: Seq<u8>, at: int, id: u64, m: Seq<u8>)
    requires
        0 <= at,
        m.len() < 0x1_0000_0000,
        at + 12 + m.len() <= body.len(),
        body.subrange(at, at + 12 + m.len()) == u64_bytes(id) + u32_bytes(len_field(m.len())) + m,
    ensures
        u64_at(body, at) == id,
        u32_at(body, at + 8) == m.len(),
        body.subrange(at + 12, at + 12 + m.len()) == m,
{
    let next = at + 12 + m.len();
    let whole = body.subrange(at, next);
    assert(body.subrange(at, at + 8) =~= whole.subrange(0, 8));
    assert(whole.subrange(0, 8) =~= u64_bytes(id));
    u64_read_back(body, at, id);
    assert(body.subrange(at + 8, at + 12) =~= whole.subrange(8, 12));
    assert(whole.subrange(8, 12) =~= u32_bytes(m.len() as u32));
    u32_read_back(body, at + 8, m.len() as u32);
    assert(body.subrange(at + 12, next) =~= whole.subrange(12, whole.len() as int));
    assert(whole.subrange(12, whole.len() as int) =~= m);
}

/// How an entry with the ID of slot `k` is read.
proof fn entry_is_applied(
    body: Seq<u8>,
    end: int,
    at: int,
    count: nat,
    ids: Seq<u64>,
    max: u64,
    slots: Seq<Option<Pairs>>,
    k: int,
    pairs: Pairs,
)
    requires
        0 <= at,
        0 <= k < slots.len(),
        ids.len() == slots.len(),
        ids_ascend(ids, max),
        slots[k] is None,
        ascending(pairs),
        pairs_fit(pairs),
        metadata_bytes(pairs).len() < 0x1_0000_0000,
        body.len() <= usize::MAX,
        at + snapshot_entry(ids[k], pairs).len() <= end <= body.len(),
        body.subrange(at, at + snapshot_entry(ids[k], pairs).len()) == snapshot_entry(
            ids[k],
            pairs,
        ),
        count > 0,
    ensures
        parse_entries(body, end, at, count, ids, slots) == parse_entries(
            body,
            end,
            at + snapshot_entry(ids[k], pairs).len(),
            (count - 1) as nat,
            ids,
            slots.update(k, Some(pairs)),
        ),
{
    assert(snapshot_entry(ids[k], pairs).len() == 12 + metadata_bytes(pairs).len());
    entry_fields(body, at, ids[k], metadata_bytes(pairs));
    metadata_round_trip(pairs);
    listing_of_pairs(pairs);
    slot_of_ascending(ids, max, k);
    let id = ids[k];
    let m = metadata_bytes(pairs);
    let next = at + 12 + m.len();
    assert(parse_metadata(body.subrange(at + 12, next)) == Ok::<
        Map<Seq<char>, ValueView>,
        ErrorView,
    >(pairs_map(pairs)));
    assert(slot_of(ids, id) == Some(k));
}

proof fn entries_read_back(
    body: Seq<u8>,
    end: int,
    at: int,
    ids: Seq<u64>,
    max: u64,
    slots: Seq<Option<Pairs>>,
    k: int,
)
    requires
        0 <= at,
        0 <= k <= slots.len(),
        ids.len() == slots.len(),
        ids_ascend(ids, max),
        snapshot_fits(slots),
        body.len() <= usize::MAX,
        end <= body.len(),
        at + snapshot_body(ids, slots, k).len() == end,
        body.subrange(at, end) == snapshot_body(ids, slots, k),
    ensures
        parse_entries(body, end, at, some_count(slots, k), ids, filled_below(slots, k)) == Ok::<
            (Seq<Option<Pairs>>, int),
            ErrorView,
        >((slots, end)),
    decreases slots.len() - k,
{
    if k == slots.len() {
        assert(filled_below(slots, k) =~= slots);
    } else {
        let rest = snapshot_body(ids, slots, k + 1);
        match slots[k] {
            None => {
                assert(snapshot_body(ids, slots, k) =~= rest);
                assert(filled_below(slots, k) =~= filled_below(slots, k + 1));
                entries_read_back(body, end, at, ids, max, slots, k + 1);
            },
            Some(pairs) => {
                let entry = snapshot_entry(ids[k], pairs);
                let whole = snapshot_body(ids, slots, k);
                let next = at + entry.len();
                assert(whole == entry + rest);
                assert(body.subrange(at, next) =~= whole.subrange(0, entry.len() as int));
                assert(whole.subrange(0, entry.len() as int) =~= entry);
                entry_is_applied(
                    body,
                    end,
                    at,
                    some_count(slots, k),
                    ids,
                    max,
                    filled_below(slots, k),
                    k,
                    pairs,
                );
                assert(filled_below(slots, k).update(k, Some(pairs)) =~= filled_below(
                    slots,
                    k + 1,
                ));
                assert(body.subrange(next, end) =~= whole.subrange(
                    entry.len() as int,
                    whole.len() as int,
                ));
                assert(whole.subrange(entry.len() as int, whole.len() as int) =~= rest);
                entries_read_back(body, end, next, ids, max, slots, k + 1);
            },
        }
    }
}

proof fn some_count_bound(slots: Seq<Option<Pairs>>, from: int)
    requires
        0 <= from <= slots.len(),
    ensures
        some_count(slots, from) <= slots.len() - from,
    decreases slots.len() - from,
{
    if from < slots.len() {
        some_count_bound(slots, from + 1);
    }
}

/// A snapshot gives back the metadata that it was made of to a store with the
/// same vectors.
pub proof fn snapshot_round_trip(ids: Seq<u64>, slots: Seq<Option<Pairs>>, max: u64)
    requires
        ids.len() == slots.len(),
        slots.len() <= u64::MAX,
        ids_ascend(ids, max),
        snapshot_fits(slots),
        snapshot_bytes(ids, slots, max).len() <= usize::MAX,
    ensures
        apply_snapshot(
            snapshot_bytes(ids, slots, max),
            ids,
            max,
            Seq::new(slots.len(), |i: int| None::<Pairs>),
        ) == Ok::<Seq<Option<Pairs>>, ErrorView>(slots),
{
    let d = snapshot_bytes(ids, slots, max);
    let count = some_count(slots, 0) as u64;
    some_count_bound(slots, 0);
    let header = snapshot_header(count, slots.len() as u64, max);
    let entries = snapshot_body(ids, slots, 0);
    let body = d.subrange(META_HEADER_SIZE as int, d.len() as int);
    assert(header.len() == 32);
    assert(d.subrange(0, 32) =~= header);
    assert(d.subrange(0, 4) =~= meta_magic());
    assert(d.subrange(8, 16) =~= u64_bytes(count));
    assert(d.subrange(16, 24) =~= u64_bytes(slots.len() as u64));
    assert(d.subrange(24, 32) =~= u64_bytes(max));
    assert(d.subrange(32, 36) =~= u32_bytes(crc32(header)));
    assert(d.subrange(36, d.len() - 4) =~= entries);
    assert(d.subrange(d.len() - 4, d.len() as int) =~= u32_bytes(crc32(entries)));
    u64_read_back(d, 8, count);
    u64_read_back(d, 16, slots.len() as u64);
    u64_read_back(d, 24, max);
    u32_read_back(d, 32, crc32(header));
    u32_read_back(d, d.len() - 4, crc32(entries));
    assert(body.subrange(0, body.len() - 4) =~= entries);
    assert(filled_below(slots, 0) =~= Seq::new(slots.len(), |i: int| None::<Pairs>));
    entries_read_back(body, body.len() - 4, 0, ids, max, slots, 0);
}

proof fn entries_keep_slots(
    body: Seq<u8>,
    end: int,
    at: int,
    count: nat,
    ids: Seq<u64>,
    slots: Seq<Option<Pairs>>,
    i: int,
)
    requires
        parse_entries(body, end, at, count, ids, slots) is Ok,
        ids.len() == slots.len(),
        0 <= i < slots.len(),
        slots[i] is Some,
    ensures
        (parse_entries(body, end, at, count, ids, slots)->Ok_0).0[i] == slots[i],
    decreases count,
{
    if count > 0 {
        let id = u64_at(body, at);
        let next = at + 12 + u32_at(body, at + 8);
        let map = parse_metadata(body.subrange(at + 12, next))->Ok_0;
        let slot = slot_of(ids, id)->0;
        let more = slots.update(slot, Some(listing(map)));
        assert(slot != i);
        assert(more[i] == slots[i]);
        entries_keep_slots(body, end, next, (count - 1) as nat, ids, more, i);
    }
}

/// A metadata snapshot is taken up only where both checksums are right and it is of
/// this very store, with as many vectors and the same largest ID; and metadata that
/// was there stays.
pub proof fn accepted_snapshot_checks_out(
    d: Seq<u8>,
    ids: Seq<u64>,
    max: u64,
    slots: Seq<Option<Pairs>>,
)
    requires
        ids.len() == slots.len(),
        apply_snapshot(d, ids, max, slots) is Ok,
    ensures
        d.len() >= 40,
        u32_at(d, 32) == crc32(d.subrange(0, 32)),
        u32_at(d, d.len() - 4) == crc32(d.subrange(36, d.len() - 4)),
        u64_at(d, 16) == ids.len(),
        u64_at(d, 24) == max,
        forall|i: int|
            0 <= i < slots.len() && (#[trigger] slots[i]) is Some ==> (apply_snapshot(
                d,
                ids,
                max,
                slots,
            )->Ok_0)[i] == slots[i],
{
    let body = d.subrange(META_HEADER_SIZE as int, d.len() as int);
    assert forall|i: int| 0 <= i < slots.len() && (#[trigger] slots[i]) is Some implies (
    apply_snapshot(d, ids, max, slots)->Ok_0)[i] == slots[i] by {
        entries_keep_slots(body, body.len() - 4, 0, u64_at(d, 8) as nat, ids, slots, i);
    }
}

} // verus!

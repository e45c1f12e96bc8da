//! The vector-file format: a header, then one record of fixed size per slot.
use vstd::arithmetic::mul::lemma_mul_inequality;
use vstd::prelude::*;
use vstd::string::*;

use crate::bytes::{get_u32, get_u64, put_u32, put_u64, u32_at, u32_bytes, u32_read_back, u64_at,
    u64_bytes, u64_read_back};
use crate::error::{invalid, ErrorView, QuiverError};
use crate::storage::header::{header_round_trip, parse_header, supported, FileHeader, HEADER_SIZE,
    LEGACY_FORMAT_VERSION};
use crate::text::{decimal, phrase, phrase2};

verus! {

/// Size of the vector ID at the start of a record.
pub const VECTOR_ID_SIZE: usize = 8;

/// A vector file whose layout has been validated.
#[derive(Debug)]
pub struct ParsedFile {
    pub header: FileHeader,
    pub record_size: usize,
    pub vector_ids: Vec<u64>,
}

/// What a valid vector file says of its layout.
pub struct Layout {
    pub header: FileHeader,
    pub record_size: int,
    pub ids: Seq<u64>,
}

impl View for ParsedFile {
    type V = Layout;

    open spec fn view(&self) -> Layout {
        Layout {
            header: self.header,
            record_size: self.record_size as int,
            ids: self.vector_ids@,
        }
    }
}

/// Where the components of a vector start in its record.
pub open spec fn vector_start(version: u8) -> int {
    if version == LEGACY_FORMAT_VERSION { 0 } else { VECTOR_ID_SIZE as int }
}

/// Size of one record.
pub open spec fn record_len(version: u8, dimension: u32) -> int {
    vector_start(version) + 4 * dimension
}

/// Where the record of `slot` starts in the file.
pub open spec fn record_at(record_size: int, slot: int) -> int {
    HEADER_SIZE + slot * record_size
}

/// The ID that stands at the start of the record of `slot`.
pub open spec fn stored_id(d: Seq<u8>, record_size: int, slot: int) -> u64 {
    u64_at(d, record_at(record_size, slot))
}

/// Whether the ID in `slot` exceeds the one before it and is one that has been
/// assigned.
pub open spec fn id_fits(d: Seq<u8>, record_size: int, max: u64, slot: int) -> bool {
    let id = stored_id(d, record_size, slot);
    &&& id > (if slot == 0 { 0 } else { stored_id(d, record_size, slot - 1) })
    &&& id <= max
}

/// The first of the slots below `n` whose ID does not fit.
pub open spec fn bad_slot(d: Seq<u8>, record_size: int, max: u64, n: nat) -> Option<nat>
    decreases n,
{
    if n == 0 {
        None
    } else {
        match bad_slot(d, record_size, max, (n - 1) as nat) {
            Some(slot) => Some(slot),
            None => if id_fits(d, record_size, max, n - 1) { None } else { Some((n - 1) as nat) },
        }
    }
}

/// The layout of a file that opens with the valid header `h`, or what is wrong
/// with it.
pub open spec fn parse_body(d: Seq<u8>, h: FileHeader) -> Result<Layout, ErrorView> {
    let size = record_len(h.version, h.dimension);
    let required = record_at(size, h.vector_count as int);
    if h.dimension == 0 {
        Err(ErrorView::InvalidFormat("Vector dimension must be greater than zero"@))
    } else if size > usize::MAX {
        Err(ErrorView::InvalidFormat("Vector record size overflow"@))
    } else if h.vector_count > usize::MAX {
        Err(ErrorView::InvalidFormat("Vector count does not fit this platform"@))
    } else if h.vector_count * size > usize::MAX {
        Err(ErrorView::InvalidFormat("Vector data size overflow"@))
    } else if required > usize::MAX {
        Err(ErrorView::InvalidFormat("Vector file size overflow"@))
    } else if d.len() < required {
        Err(ErrorView::InvalidFormat(
            "Truncated vector data: "@ + decimal(d.len()) + " bytes, expected at least "@
                + decimal(required as nat) + ""@))
    } else if h.vector_count > 0 && h.max_vector_id == 0 {
        Err(ErrorView::InvalidFormat("Non-empty store has max_vector_id 0"@))
    } else if h.version == LEGACY_FORMAT_VERSION {
        if h.max_vector_id < h.vector_count {
            Err(ErrorView::InvalidFormat(
                "Legacy max_vector_id "@ + decimal(h.max_vector_id as nat)
                    + " is smaller than vector_count "@ + decimal(h.vector_count as nat) + ""@))
        } else {
            Ok(Layout {
                header: h,
                record_size: size,
                ids: Seq::new(h.vector_count as nat, |i: int| (i + 1) as u64),
            })
        }
    } else {
        match bad_slot(d, size, h.max_vector_id, h.vector_count as nat) {
            Some(slot) => Err(ErrorView::InvalidFormat(
                "Invalid vector ID "@ + decimal(stored_id(d, size, slot as int) as nat)
                    + " at slot "@ + decimal(slot) + ""@)),
            None => Ok(Layout {
                header: h,
                record_size: size,
                ids: Seq::new(h.vector_count as nat, |i: int| stored_id(d, size, i)),
            }),
        }
    }
}

/// The layout of a vector file, or what is wrong with it.
pub open spec fn parse_file(d: Seq<u8>) -> Result<Layout, ErrorView> {
    if d.len() < HEADER_SIZE {
        Err(ErrorView::InvalidFormat(
            "File too short: "@ + decimal(d.len()) + " bytes, expected at least 64"@))
    } else {
        match parse_header(d.subrange(0, HEADER_SIZE as int)) {
            Err(e) => Err(e),
            Ok(h) => parse_body(d, h),
        }
    }
}

/// The components whose bytes stand at `at`.
pub open spec fn vector_at(d: Seq<u8>, at: int, dimension: nat) -> Seq<u32> {
    Seq::new(dimension, |i: int| u32_at(d, at + 4 * i))
}

/// The vectors that a file of this layout holds, slot by slot.
pub open spec fn stored_vectors(d: Seq<u8>, layout: Layout) -> Seq<Seq<u32>> {
    Seq::new(
        layout.ids.len(),
        |slot: int|
            vector_at(
                d,
                record_at(layout.record_size, slot) + vector_start(layout.header.version),
                layout.header.dimension as nat,
            ),
    )
}

/// The components of a vector as bytes.
pub open spec fn vector_bytes(v: Seq<u32>) -> Seq<u8> {
    Seq::new(4 * v.len(), |i: int| u32_bytes(v[i / 4])[i % 4])
}

/// A record: the ID (but in the legacy format), then the components.
pub open spec fn record_bytes(version: u8, id: u64, v: Seq<u32>) -> Seq<u8> {
    (if version == LEGACY_FORMAT_VERSION { Seq::<u8>::empty() } else { u64_bytes(id) })
        + vector_bytes(v)
}

/// The first `n` records, one behind the other.
pub open spec fn records_bytes(version: u8, ids: Seq<u64>, vectors: Seq<Seq<u32>>, n: nat) -> Seq<
    u8,
>
    decreases n,
{
    if n == 0 {
        Seq::empty()
    } else {
        records_bytes(version, ids, vectors, (n - 1) as nat)
            + record_bytes(version, ids[n - 1], vectors[n - 1])
    }
}

/// A whole vector file.
pub open spec fn file_bytes(h: FileHeader, ids: Seq<u64>, vectors: Seq<Seq<u32>>) -> Seq<u8> {
    h.encoded() + records_bytes(h.version, ids, vectors, ids.len())
}

/// Whether `ids` ascend strictly, from 1 at least to `max` at most.
pub open spec fn ids_ascend(ids: Seq<u64>, max: u64) -> bool {
    &&& forall|i: int| 0 <= i < ids.len() ==> 1 <= #[trigger] ids[i] <= max
    &&& forall|i: int, j: int| 0 <= i < j < ids.len() ==> ids[i] < ids[j]
}

/// Whether a header, IDs and vectors make up a store that a file can hold.
pub open spec fn storable(h: FileHeader, ids: Seq<u64>, vectors: Seq<Seq<u32>>) -> bool {
    &&& supported(h.version)
    &&& h.dimension > 0
    &&& h.vector_count == ids.len()
    &&& ids.len() == vectors.len()
    &&& forall|i: int| 0 <= i < vectors.len() ==> (#[trigger] vectors[i]).len() == h.dimension
    &&& ids_ascend(ids, h.max_vector_id)
    &&& h.version == LEGACY_FORMAT_VERSION ==> forall|i: int|
        0 <= i < ids.len() ==> #[trigger] ids[i] == i + 1
    &&& record_len(h.version, h.dimension) <= usize::MAX
    &&& record_at(record_len(h.version, h.dimension), ids.len() as int) <= usize::MAX
}

/// No slot is bad if and only if every ID fits, and the ID of a bad slot does not.
pub proof fn no_bad_slot(d: Seq<u8>, record_size: int, max: u64, n: nat)
    ensures
        bad_slot(d, record_size, max, n) is None <==> forall|slot: int|
            0 <= slot < n ==> #[trigger] id_fits(d, record_size, max, slot),
        bad_slot(d, record_size, max, n) matches Some(s) ==> s < n && !id_fits(
            d,
            record_size,
            max,
            s as int,
        ),
    decreases n,
{
    if n > 0 {
        no_bad_slot(d, record_size, max, (n - 1) as nat);
    }
}

proof fn fitting_ids_ascend(d: Seq<u8>, record_size: int, max: u64, i: int, j: int)
    requires
        0 <= i < j,
        forall|slot: int| 0 <= slot <= j ==> #[trigger] id_fits(d, record_size, max, slot),
    ensures
        stored_id(d, record_size, i) < stored_id(d, record_size, j),
    decreases j - i,
{
    assert(id_fits(d, record_size, max, j));
    if i + 1 < j {
        fitting_ids_ascend(d, record_size, max, i, j - 1);
    }
}

proof fn fitting_ids_positive(d: Seq<u8>, record_size: int, max: u64, i: int)
    requires
        0 <= i,
        forall|slot: int| 0 <= slot <= i ==> #[trigger] id_fits(d, record_size, max, slot),
    ensures
        1 <= stored_id(d, record_size, i) <= max,
    decreases i,
{
    assert(id_fits(d, record_size, max, i));
    if i > 0 {
        fitting_ids_positive(d, record_size, max, i - 1);
    }
}

/// The IDs of every valid file ascend strictly and have all been assigned, one
/// for each vector that the header counts, and the file holds every record.
pub proof fn parsed_ids_ascend(d: Seq<u8>)
    ensures
        parse_file(d) matches Ok(layout) ==> {
            &&& supported(layout.header.version)
            &&& layout.header.dimension > 0
            &&& layout.ids.len() == layout.header.vector_count
            &&& ids_ascend(layout.ids, layout.header.max_vector_id)
            &&& layout.record_size == record_len(layout.header.version, layout.header.dimension)
            &&& layout.record_size <= usize::MAX
            &&& record_at(layout.record_size, layout.ids.len() as int) <= d.len()
            &&& record_at(layout.record_size, layout.ids.len() as int) <= usize::MAX
            &&& layout.header.version == LEGACY_FORMAT_VERSION ==> forall|i: int|
                0 <= i < layout.ids.len() ==> #[trigger] layout.ids[i] == i + 1
        },
{
    if let Ok(layout) = parse_file(d) {
        let size = layout.record_size;
        let max = layout.header.max_vector_id;
        let n = layout.ids.len();
        if layout.header.version != LEGACY_FORMAT_VERSION {
            no_bad_slot(d, size, max, n);
            assert forall|i: int| 0 <= i < n implies 1 <= #[trigger] layout.ids[i] <= max by {
                fitting_ids_positive(d, size, max, i);
            }
            assert forall|i: int, j: int| 0 <= i < j < n implies layout.ids[i] < layout.ids[j] by {
                fitting_ids_ascend(d, size, max, i, j);
            }
        }
    }
}

/// A record starts where the one before it ends.
pub proof fn record_at_step(record_size: int, slot: int)
    ensures
        record_at(record_size, slot + 1) == record_at(record_size, slot) + record_size,
{
    assert((slot + 1) * record_size == slot * record_size + record_size) by (nonlinear_arith);
}

/// Records stand behind the header, in the order of their slots.
pub proof fn record_at_order(record_size: int, i: int, j: int)
    requires
        0 <= i <= j,
        0 <= record_size,
    ensures
        HEADER_SIZE <= record_at(record_size, i) <= record_at(record_size, j),
{
    lemma_mul_inequality(i, j, record_size);
    assert(i * record_size >= 0) by (nonlinear_arith)
        requires
            0 <= i,
            0 <= record_size,
    ;
}

/// Where the bytes of a component stand.
pub proof fn vector_bytes_at(v: Seq<u32>, i: int)
    requires
        0 <= i < v.len(),
    ensures
        vector_bytes(v).subrange(4 * i, 4 * i + 4) == u32_bytes(v[i]),
{
    assert(vector_bytes(v).subrange(4 * i, 4 * i + 4) =~= u32_bytes(v[i]));
}

/// A vector is read back from wherever its bytes stand.
pub proof fn vector_read_back(d: Seq<u8>, at: int, v: Seq<u32>)
    requires
        0 <= at,
        at + 4 * v.len() <= d.len(),
        d.subrange(at, at + 4 * v.len()) == vector_bytes(v),
    ensures
        vector_at(d, at, v.len()) == v,
{
    assert forall|i: int| 0 <= i < v.len() implies #[trigger] u32_at(d, at + 4 * i) == v[i] by {
        vector_bytes_at(v, i);
        let whole = d.subrange(at, at + 4 * v.len());
        assert(d.subrange(at + 4 * i, at + 4 * i + 4) =~= whole.subrange(4 * i, 4 * i + 4));
        u32_read_back(d, at + 4 * i, v[i]);
    }
    assert(vector_at(d, at, v.len()) =~= v);
}

/// A component more adds its bytes at the end.
pub proof fn vector_bytes_push(v: Seq<u32>, x: u32)
    ensures
        vector_bytes(v.push(x)) == vector_bytes(v) + u32_bytes(x),
{
    let w = v.push(x);
    assert forall|i: int| 0 <= i < 4 * w.len() implies #[trigger] vector_bytes(w)[i] == (
    vector_bytes(v) + u32_bytes(x))[i] by {
        if i < 4 * v.len() {
            assert(w[i / 4] == v[i / 4]);
        } else {
            assert(i / 4 == v.len() && i % 4 == i - 4 * v.len());
        }
    }
    assert(vector_bytes(w) =~= vector_bytes(v) + u32_bytes(x));
}

proof fn records_len(version: u8, ids: Seq<u64>, vectors: Seq<Seq<u32>>, dimension: u32, n: nat)
    requires
        n <= vectors.len(),
        forall|i: int| 0 <= i < n ==> (#[trigger] vectors[i]).len() == dimension,
    ensures
        records_bytes(version, ids, vectors, n).len() == n * record_len(version, dimension),
    decreases n,
{
    let size = record_len(version, dimension);
    if n > 0 {
        records_len(version, ids, vectors, dimension, (n - 1) as nat);
        assert(vectors[n - 1].len() == dimension);
        assert((n - 1) * size + size == n * size) by (nonlinear_arith);
    } else {
        assert(0 * size == 0);
    }
}

/// Where the record of `slot` stands among the first `n` records of a file.
pub proof fn record_among(
    version: u8,
    ids: Seq<u64>,
    vectors: Seq<Seq<u32>>,
    dimension: u32,
    n: nat,
    slot: int,
)
    requires
        n <= vectors.len(),
        forall|i: int| 0 <= i < n ==> (#[trigger] vectors[i]).len() == dimension,
        0 <= slot < n,
    ensures
        0 <= slot * record_len(version, dimension),
        slot * record_len(version, dimension) + record_len(version, dimension) <= records_bytes(
            version,
            ids,
            vectors,
            n,
        ).len(),
        records_bytes(version, ids, vectors, n).subrange(
            slot * record_len(version, dimension),
            slot * record_len(version, dimension) + record_len(version, dimension),
        ) == record_bytes(version, ids[slot], vectors[slot]),
    decreases n,
{
    let size = record_len(version, dimension);
    let at = slot * size;
    let all = records_bytes(version, ids, vectors, n);
    let fewer = records_bytes(version, ids, vectors, (n - 1) as nat);
    let last = record_bytes(version, ids[n - 1], vectors[n - 1]);
    assert(vectors[n - 1].len() == dimension);
    records_len(version, ids, vectors, dimension, (n - 1) as nat);
    assert(all == fewer + last);
    if slot == n - 1 {
        assert(all.subrange(at, at + size) =~= last);
    } else {
        record_among(version, ids, vectors, dimension, (n - 1) as nat, slot);
        assert(all.subrange(at, at + size) =~= fewer.subrange(at, at + size));
    }
}

/// What the record of `slot` says in the file of a store.
proof fn record_read_back(
    h: FileHeader,
    ids: Seq<u64>,
    vectors: Seq<Seq<u32>>,
    padding: Seq<u8>,
    slot: int,
)
    requires
        h.encoded().len() == HEADER_SIZE,
        ids.len() == vectors.len(),
        forall|i: int| 0 <= i < vectors.len() ==> (#[trigger] vectors[i]).len() == h.dimension,
        0 <= slot < ids.len(),
    ensures
        vector_at(
            file_bytes(h, ids, vectors) + padding,
            record_at(record_len(h.version, h.dimension), slot) + vector_start(h.version),
            h.dimension as nat,
        ) == vectors[slot],
        h.version != LEGACY_FORMAT_VERSION ==> stored_id(
            file_bytes(h, ids, vectors) + padding,
            record_len(h.version, h.dimension),
            slot,
        ) == ids[slot],
{
    let d = file_bytes(h, ids, vectors) + padding;
    let size = record_len(h.version, h.dimension);
    let records = records_bytes(h.version, ids, vectors, ids.len());
    record_among(h.version, ids, vectors, h.dimension, ids.len(), slot);
    let start = vector_start(h.version);
    let skip = slot * size;
    let at = HEADER_SIZE + skip;
    let v = vectors[slot];
    let record = record_bytes(h.version, ids[slot], v);
    assert(d.subrange(at, at + size) =~= records.subrange(skip, skip + size));
    assert(d.subrange(at + start, at + start + 4 * v.len()) =~= record.subrange(start, size));
    assert(record.subrange(start, size) =~= vector_bytes(v));
    vector_read_back(d, at + start, v);
    if h.version != LEGACY_FORMAT_VERSION {
        assert(d.subrange(at, at + 8) =~= record.subrange(0, 8));
        assert(record.subrange(0, 8) =~= u64_bytes(ids[slot]));
        u64_read_back(d, at, ids[slot]);
    }
}

/// When a file with the header `h` has the layout of a store.
proof fn body_accepted(d: Seq<u8>, h: FileHeader, ids: Seq<u64>, vectors: Seq<Seq<u32>>)
    requires
        storable(h, ids, vectors),
        d.len() >= record_at(record_len(h.version, h.dimension), ids.len() as int),
        h.version != LEGACY_FORMAT_VERSION ==> forall|slot: int|
            0 <= slot < ids.len() ==> #[trigger] stored_id(
                d,
                record_len(h.version, h.dimension),
                slot,
            ) == ids[slot],
    ensures
        parse_body(d, h) == Ok::<Layout, ErrorView>(
            Layout { header: h, record_size: record_len(h.version, h.dimension), ids },
        ),
{
    let n = ids.len();
    let size = record_len(h.version, h.dimension);
    record_at_order(size, 0, n as int);
    assert(n <= n * size) by (nonlinear_arith)
        requires
            n >= 0,
            size >= 1,
    ;
    assert(h.vector_count as int * size == n * size);
    if n > 0 {
        assert(1 <= ids[0] <= h.max_vector_id);
    }
    if h.version == LEGACY_FORMAT_VERSION {
        if n > 0 {
            assert(ids[n - 1] == n);
            assert(ids[n - 1] <= h.max_vector_id);
        }
        assert(Seq::new(h.vector_count as nat, |i: int| (i + 1) as u64) =~= ids);
    } else {
        no_bad_slot(d, size, h.max_vector_id, n);
        assert forall|slot: int| 0 <= slot < n implies #[trigger] id_fits(
            d,
            size,
            h.max_vector_id,
            slot,
        ) by {
            assert(stored_id(d, size, slot) == ids[slot]);
            assert(1 <= ids[slot] <= h.max_vector_id);
            if slot > 0 {
                assert(stored_id(d, size, slot - 1) == ids[slot - 1]);
            }
        }
        assert(Seq::new(h.vector_count as nat, |i: int| stored_id(d, size, i)) =~= ids);
    }
}

/// The file of a store holds that store: the layout read from it has the
/// store's header and IDs, and each record its vector. Bytes behind the last
/// record do not matter.
pub proof fn file_round_trip(
    h: FileHeader,
    ids: Seq<u64>,
    vectors: Seq<Seq<u32>>,
    padding: Seq<u8>,
)
    requires
        storable(h, ids, vectors),
    ensures
        parse_file(file_bytes(h, ids, vectors) + padding) == Ok::<Layout, ErrorView>(
            Layout { header: h, record_size: record_len(h.version, h.dimension), ids },
        ),
        stored_vectors(
            file_bytes(h, ids, vectors) + padding,
            Layout { header: h, record_size: record_len(h.version, h.dimension), ids },
        ) == vectors,
{
    let d = file_bytes(h, ids, vectors) + padding;
    let n = ids.len();
    let size = record_len(h.version, h.dimension);
    let layout = Layout { header: h, record_size: size, ids };
    header_round_trip(h, Seq::empty());
    assert(h.encoded() + Seq::<u8>::empty() =~= h.encoded());
    assert(d.subrange(0, HEADER_SIZE as int) =~= h.encoded());
    records_len(h.version, ids, vectors, h.dimension, n);
    record_at_order(size, 0, n as int);
    assert(d.len() >= record_at(size, n as int));
    assert forall|slot: int| 0 <= slot < n implies #[trigger] stored_vectors(d, layout)[slot]
        == vectors[slot] by {
        record_read_back(h, ids, vectors, padding, slot);
    }
    assert(stored_vectors(d, layout) =~= vectors);
    if h.version != LEGACY_FORMAT_VERSION {
        assert forall|slot: int| 0 <= slot < n implies #[trigger] stored_id(d, size, slot)
            == ids[slot] by {
            record_read_back(h, ids, vectors, padding, slot);
        }
    }
    body_accepted(d, h, ids, vectors);
}

/// Whether the bytes are those of a valid vector file.
pub fn validate_file_bytes(data: &[u8]) -> (result: Result<(), QuiverError>)
    ensures
        match result {
            Ok(_) => parse_file(data@) is Ok,
            Err(e) => parse_file(data@) == Err::<Layout, ErrorView>(e@),
        },
{
    match parse_file_bytes(data) {
        Ok(_) => Ok(()),
        Err(e) => Err(e),
    }
}

/// Validates a whole vector file, and reads its header and IDs.
pub fn parse_file_bytes(data: &[u8]) -> (result: Result<ParsedFile, QuiverError>)
    ensures
        match result {
            Ok(parsed) => parse_file(data@) == Ok::<Layout, ErrorView>(parsed@),
            Err(e) => parse_file(data@) == Err::<Layout, ErrorView>(e@),
        },
{
    if data.len() < HEADER_SIZE {
        return Err(QuiverError::InvalidFormat(
            phrase("File too short: ", data.len() as u64, " bytes, expected at least 64")));
    }
    let header = match FileHeader::from_bytes(&data[0..HEADER_SIZE]) {
        Ok(header) => header,
        Err(e) => return Err(e),
    };
    if header.dimension == 0 {
        return Err(invalid("Vector dimension must be greater than zero"));
    }
    let vector_len: usize = match (header.dimension as usize).checked_mul(4) {
        Some(len) => len,
        None => return Err(invalid("Vector record size overflow")),
    };
    let record_size: usize = if header.version == LEGACY_FORMAT_VERSION {
        vector_len
    } else {
        match VECTOR_ID_SIZE.checked_add(vector_len) {
            Some(len) => len,
            None => return Err(invalid("Vector record size overflow")),
        }
    };
    if header.vector_count > usize::MAX as u64 {
        return Err(invalid("Vector count does not fit this platform"));
    }
    let vector_count: usize = header.vector_count as usize;
    let records_len: usize = match vector_count.checked_mul(record_size) {
        Some(len) => len,
        None => return Err(invalid("Vector data size overflow")),
    };
    let required_len: usize = match HEADER_SIZE.checked_add(records_len) {
        Some(len) => len,
        None => return Err(invalid("Vector file size overflow")),
    };
    if data.len() < required_len {
        return Err(QuiverError::InvalidFormat(phrase2(
            "Truncated vector data: ", data.len() as u64, " bytes, expected at least ",
            required_len as u64, "")));
    }
    if vector_count > 0 && header.max_vector_id == 0 {
        return Err(invalid("Non-empty store has max_vector_id 0"));
    }
    let ghost size = record_size as int;
    let mut vector_ids: Vec<u64> = Vec::with_capacity(vector_count);
    if header.version == LEGACY_FORMAT_VERSION {
        if header.max_vector_id < header.vector_count {
            return Err(QuiverError::InvalidFormat(phrase2(
                "Legacy max_vector_id ", header.max_vector_id, " is smaller than vector_count ",
                header.vector_count, "")));
        }
        for slot in 0..vector_count
            invariant
                vector_ids@ == Seq::new(slot as nat, |i: int| (i + 1) as u64),
        {
            vector_ids.push(slot as u64 + 1);
            assert(vector_ids@ =~= Seq::new((slot + 1) as nat, |i: int| (i + 1) as u64));
        }
    } else {
        let mut previous_id: u64 = 0;
        for slot in 0..vector_count
            invariant
                size == record_size,
                size == record_len(header.version, header.dimension),
                header.version != LEGACY_FORMAT_VERSION,
                vector_count == header.vector_count,
                record_at(size, vector_count as int) <= data.len(),
                record_at(size, vector_count as int) <= usize::MAX,
                vector_ids@ == Seq::new(slot as nat, |i: int| stored_id(data@, size, i)),
                previous_id == (if slot == 0 { 0 } else { stored_id(data@, size, slot - 1) }),
                bad_slot(data@, size, header.max_vector_id, slot as nat) is None,
                parse_file(data@) == parse_body(data@, header),
                parse_body(data@, header) == (match bad_slot(
                    data@,
                    size,
                    header.max_vector_id,
                    header.vector_count as nat,
                ) {
                    Some(slot) => Err::<Layout, ErrorView>(ErrorView::InvalidFormat(
                        "Invalid vector ID "@ + decimal(stored_id(data@, size, slot as int) as nat)
                            + " at slot "@ + decimal(slot) + ""@)),
                    None => Ok(Layout {
                        header,
                        record_size: size,
                        ids: Seq::new(header.vector_count as nat, |i: int| stored_id(data@, size, i)),
                    }),
                }),
        {
            proof {
                record_at_order(size, slot as int, slot as int);
                record_at_order(size, slot + 1, vector_count as int);
                record_at_step(size, slot as int);
            }
            let offset: usize = HEADER_SIZE + slot * record_size;
            let vector_id: u64 = get_u64(data, offset);
            if vector_id == 0 || vector_id <= previous_id || vector_id > header.max_vector_id {
                proof {
                    first_bad_slot(data@, size, header.max_vector_id, slot as nat, vector_count as nat);
                }
                return Err(QuiverError::InvalidFormat(phrase2(
                    "Invalid vector ID ", vector_id, " at slot ", slot as u64, "")));
            }
            vector_ids.push(vector_id);
            previous_id = vector_id;
            assert(vector_ids@ =~= Seq::new((slot + 1) as nat, |i: int| stored_id(data@, size, i)));
        }
    }
    Ok(ParsedFile { header, record_size, vector_ids })
}

proof fn first_bad_slot(d: Seq<u8>, record_size: int, max: u64, slot: nat, n: nat)
    requires
        slot < n,
        bad_slot(d, record_size, max, slot) is None,
        !id_fits(d, record_size, max, slot as int),
    ensures
        bad_slot(d, record_size, max, n) == Some(slot),
    decreases n,
{
    if n > slot + 1 {
        first_bad_slot(d, record_size, max, slot, (n - 1) as nat);
    }
}

/// Reads `dimension` components that stand at `at`.
pub fn read_vector(data: &[u8], at: usize, dimension: usize) -> (vector: Vec<u32>)
    requires
        at + 4 * dimension <= data.len(),
    ensures
        vector@ == vector_at(data@, at as int, dimension as nat),
{
    let mut vector: Vec<u32> = Vec::with_capacity(dimension);
    for i in 0..dimension
        invariant
            at + 4 * dimension <= data.len(),
            vector@ == vector_at(data@, at as int, i as nat),
    {
        vector.push(get_u32(data, at + 4 * i));
        assert(vector@ =~= vector_at(data@, at as int, (i + 1) as nat));
    }
    vector
}

/// Appends the bytes of a vector.
pub fn put_vector(out: &mut Vec<u8>, vector: &[u32])
    ensures
        final(out)@ == old(out)@ + vector_bytes(vector@),
{
    let ghost before = out@;
    assert(out@ =~= before + vector_bytes(vector@.take(0)));
    for i in 0..vector.len()
        invariant
            out@ == before + vector_bytes(vector@.take(i as int)),
    {
        put_u32(out, vector[i]);
        proof {
            let v = vector@.take(i as int);
            vector_bytes_push(v, vector@[i as int]);
            assert(v.push(vector@[i as int]) =~= vector@.take(i + 1));
            assert(out@ =~= before + vector_bytes(vector@.take(i + 1)));
        }
    }
    assert(vector@.take(vector@.len() as int) =~= vector@);
}

/// Appends the record of a vector.
pub fn put_record(out: &mut Vec<u8>, version: u8, id: u64, vector: &[u32])
    ensures
        final(out)@ == old(out)@ + record_bytes(version, id, vector@),
{
    let ghost before = out@;
    if version != LEGACY_FORMAT_VERSION {
        put_u64(out, id);
    }
    put_vector(out, vector);
    assert(out@ =~= before + record_bytes(version, id, vector@));
}

/// The bytes that a record takes: the ID in eight, but in version 1, and four for each
/// component.
pub open spec fn bytes_of_record(h: FileHeader) -> int {
    if h.version == 1 {
        4 * h.dimension
    } else {
        8 + 4 * h.dimension
    }
}

/// A vector file is accepted if and only if its header is valid, vectors have a
/// dimension, every record that the header counts is there, and the IDs ascend and
/// are among those assigned; the sizes fit the platform. In version 1 the IDs count
/// from 1.
pub proof fn accepted_file_is_valid(d: Seq<u8>)
    requires
        d.len() <= usize::MAX,
    ensures
        ({
            let header = parse_header(d.subrange(0, 64));
            let h = header->Ok_0;
            let size = bytes_of_record(h);
            let id = |i: int| u64_at(d, 64 + i * size);
            parse_file(d) is Ok <==> {
                &&& d.len() >= 64
                &&& header is Ok
                &&& h.dimension > 0
                &&& size <= usize::MAX
                &&& 64 + h.vector_count * size <= d.len()
                &&& h.vector_count > 0 ==> h.max_vector_id > 0
                &&& h.version == 1 ==> h.vector_count <= h.max_vector_id
                &&& h.version != 1 ==> forall|i: int|
                    0 <= i < h.vector_count ==> 0 < #[trigger] id(i) <= h.max_vector_id && (i > 0
                        ==> id(i - 1) < id(i))
            }
        }),
        parse_file(d) matches Ok(layout) ==> {
            let h = parse_header(d.subrange(0, 64))->Ok_0;
            let size = bytes_of_record(h);
            &&& layout.header == h
            &&& layout.ids.len() == h.vector_count
            &&& forall|i: int|
                0 <= i < layout.ids.len() ==> #[trigger] layout.ids[i] == (if h.version == 1 {
                    (i + 1) as u64
                } else {
                    u64_at(d, 64 + i * size)
                })
            &&& stored_vectors(d, layout).len() == layout.ids.len()
            &&& forall|i: int, j: int|
                0 <= i < layout.ids.len() && 0 <= j < h.dimension ==> #[trigger] stored_vectors(
                    d,
                    layout,
                )[i][j] == u32_at(d, 64 + i * size + (size - 4 * h.dimension) + 4 * j)
        },
{
    if d.len() >= 64 && parse_header(d.subrange(0, 64)) is Ok {
        let h = parse_header(d.subrange(0, 64))->Ok_0;
        let size = bytes_of_record(h);
        let id = |i: int| u64_at(d, 64 + i * size);
        assert(record_len(h.version, h.dimension) == size);
        let n = h.vector_count as nat;
        if h.dimension > 0 {
            assert(n <= n * size) by (nonlinear_arith)
                requires
                    n >= 0,
                    size >= 1,
            ;
        }
        assert forall|i: int| #[trigger] id(i) == stored_id(d, size, i) by {}
        no_bad_slot(d, size, h.max_vector_id, n);
        if h.version != 1 {
            if bad_slot(d, size, h.max_vector_id, n) is None {
                assert forall|i: int| 0 <= i < n implies 0 < #[trigger] id(i) <= h.max_vector_id
                    && (i > 0 ==> id(i - 1) < id(i)) by {
                    assert(id_fits(d, size, h.max_vector_id, i));
                }
            } else {
                let bad = bad_slot(d, size, h.max_vector_id, n)->0 as int;
                assert(!id_fits(d, size, h.max_vector_id, bad));
                assert(!(0 < id(bad) <= h.max_vector_id && (bad > 0 ==> id(bad - 1) < id(bad))));
            }
        }
    }
}

} // verus!

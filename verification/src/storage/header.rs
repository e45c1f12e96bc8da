//! The versioned header at the start of every vector file.
//!
//! ```text
//! Offset  Size  Field
//! ------  ----  -----
//! 0       4     Magic bytes: b"QVDB"
//! 4       1     Format version (currently 3)
//! 5       1     Metric (0 = L2, 1 = DotProduct, 2 = Cosine)
//! 6       2     Reserved (zeroed)
//! 8       4     Vector dimension (u32, little-endian)
//! 12      8     Vector count (u64, little-endian)
//! 20      8     Largest vector ID assigned so far (u64, little-endian)
//! 28      36    Reserved (zeroed)
//! ------  ----
//! 64      Total header size
//! ```
//!
//! Records of version 3 are laid out as those of version 2; the number says
//! that vectors may carry metadata, which is kept in the log and in a snapshot
//! beside the file, never in the records.
use vstd::prelude::*;
use vstd::string::*;

use crate::bytes::{get_u32, get_u64, put_u32, put_u64, u32_at, u32_bytes, u32_read_back, u64_at,
    u64_bytes, u64_read_back};
use crate::distance::{metric_of, Metric};
use crate::error::{ErrorView, QuiverError};
use crate::text::{decimal, phrase, phrase2, push_decimal};

verus! {

/// The legacy format: bare records, the vector in slot `s` has the ID `s + 1`.
pub const LEGACY_FORMAT_VERSION: u8 = 1;

/// The current format: a vector ID at the start of each record, and metadata
/// beside the file.
pub const FORMAT_VERSION: u8 = 3;

/// Size of the file header in bytes.
pub const HEADER_SIZE: usize = 64;

/// The bytes that identify a vector file: "QVDB".
pub const MAGIC: [u8; 4] = [81, 86, 68, 66];

/// The bytes of [`MAGIC`].
pub open spec fn magic() -> Seq<u8> {
    seq![81u8, 86u8, 68u8, 66u8]
}

/// The header of a vector file.
#[derive(Debug, Clone, Copy, PartialEq, Eq, Structural)]
pub struct FileHeader {
    /// File format version.
    pub version: u8,
    /// The distance metric of the index.
    pub metric: Metric,
    /// Number of components of each vector.
    pub dimension: u32,
    /// Number of vectors stored.
    pub vector_count: u64,
    /// Largest vector ID assigned so far.
    pub max_vector_id: u64,
}

/// Four numbers in brackets.
pub open spec fn quad(s: Seq<u8>) -> Seq<char> {
    "["@ + decimal(s[0] as nat) + ", "@ + decimal(s[1] as nat) + ", "@ + decimal(s[2] as nat)
        + ", "@ + decimal(s[3] as nat) + "]"@
}

/// Whether a file of this format version can be read.
pub open spec fn supported(version: u8) -> bool {
    LEGACY_FORMAT_VERSION <= version <= FORMAT_VERSION
}

/// The header that the bytes of a file start with, or what is wrong with it.
pub open spec fn parse_header(d: Seq<u8>) -> Result<FileHeader, ErrorView> {
    if d.len() < HEADER_SIZE {
        Err(ErrorView::InvalidFormat(
            "Header too short: "@ + decimal(d.len()) + " bytes, expected at least 64"@))
    } else if d.subrange(0, 4) != magic() {
        Err(ErrorView::InvalidFormat(
            "Invalid magic bytes: expected [81, 86, 68, 66], got "@ + quad(d.subrange(0, 4))))
    } else if !supported(d[4]) {
        Err(ErrorView::InvalidFormat(
            "Unsupported format version: "@ + decimal(d[4] as nat) + " (max supported: "@
                + decimal(FORMAT_VERSION as nat) + ")"@))
    } else {
        match metric_of(d[5]) {
            None => Err(ErrorView::UnsupportedMetric(d[5])),
            Some(metric) => Ok(FileHeader {
                version: d[4],
                metric,
                dimension: u32_at(d, 8),
                vector_count: u64_at(d, 12),
                max_vector_id: u64_at(d, 20),
            }),
        }
    }
}

impl FileHeader {
    /// The header as it stands in a file.
    pub open spec fn encoded(self) -> Seq<u8> {
        magic() + seq![self.version, self.metric.code(), 0u8, 0u8] + u32_bytes(self.dimension)
            + u64_bytes(self.vector_count) + u64_bytes(self.max_vector_id)
            + Seq::new(36, |i: int| 0u8)
    }

    /// The header of a fresh index.
    pub fn new(dimension: u32, metric: Metric) -> (header: Self)
        ensures
            header == (FileHeader {
                version: FORMAT_VERSION,
                metric,
                dimension,
                vector_count: 0,
                max_vector_id: 0,
            }),
    {
        Self { version: FORMAT_VERSION, metric, dimension, vector_count: 0, max_vector_id: 0 }
    }

    /// The header as [`HEADER_SIZE`] bytes.
    pub fn to_bytes(&self) -> (out: Vec<u8>)
        ensures
            out@ == self.encoded(),
            out@.len() == HEADER_SIZE,
    {
        let mut buf: Vec<u8> = Vec::with_capacity(HEADER_SIZE);
        buf.push(81);
        buf.push(86);
        buf.push(68);
        buf.push(66);
        buf.push(self.version);
        buf.push(self.metric.to_u8());
        buf.push(0);
        buf.push(0);
        assert(buf@ =~= magic() + seq![self.version, self.metric.code(), 0u8, 0u8]);
        put_u32(&mut buf, self.dimension);
        put_u64(&mut buf, self.vector_count);
        put_u64(&mut buf, self.max_vector_id);
        buf.resize(HEADER_SIZE, 0);
        assert(buf@ =~= self.encoded());
        buf
    }

    /// Reads a header from the start of `data`.
    pub fn from_bytes(data: &[u8]) -> (result: Result<Self, QuiverError>)
        ensures
            match result {
                Ok(header) => parse_header(data@) == Ok::<FileHeader, ErrorView>(header),
                Err(e) => parse_header(data@) == Err::<FileHeader, ErrorView>(e@),
            },
    {
        if data.len() < HEADER_SIZE {
            return Err(QuiverError::InvalidFormat(
                phrase("Header too short: ", data.len() as u64, " bytes, expected at least 64")));
        }
        if !(data[0] == 81 && data[1] == 86 && data[2] == 68 && data[3] == 66) {
            let mut text = "Invalid magic bytes: expected [81, 86, 68, 66], got ".to_owned();
            let ghost opening = text@;
            text.append("[");
            push_decimal(&mut text, data[0] as u64);
            text.append(", ");
            push_decimal(&mut text, data[1] as u64);
            text.append(", ");
            push_decimal(&mut text, data[2] as u64);
            text.append(", ");
            push_decimal(&mut text, data[3] as u64);
            text.append("]");
            proof {
                let s = data@.subrange(0, 4);
                assert(s[0] == data@[0] && s[1] == data@[1] && s[2] == data@[2] && s[3] == data@[3]);
                assert(text@ =~= opening + quad(s));
            }
            return Err(QuiverError::InvalidFormat(text));
        }
        assert(data@.subrange(0, 4) =~= magic());
        let version: u8 = data[4];
        if version < LEGACY_FORMAT_VERSION || version > FORMAT_VERSION {
            return Err(QuiverError::InvalidFormat(phrase2(
                "Unsupported format version: ", version as u64, " (max supported: ",
                FORMAT_VERSION as u64, ")")));
        }
        match Metric::from_u8(data[5]) {
            None => Err(QuiverError::UnsupportedMetric(data[5])),
            Some(metric) => Ok(Self {
                version,
                metric,
                dimension: get_u32(data, 8),
                vector_count: get_u64(data, 12),
                max_vector_id: get_u64(data, 20),
            }),
        }
    }
}

/// A header is read back from its own bytes, whatever follows them in the file.
pub proof fn header_round_trip(header: FileHeader, rest: Seq<u8>)
    requires
        supported(header.version),
    ensures
        header.encoded().len() == HEADER_SIZE,
        parse_header(header.encoded() + rest) == Ok::<FileHeader, ErrorView>(header),
{
    let d = header.encoded() + rest;
    assert(d.subrange(0, 4) =~= magic());
    assert(d.subrange(8, 12) =~= u32_bytes(header.dimension));
    assert(d.subrange(12, 20) =~= u64_bytes(header.vector_count));
    assert(d.subrange(20, 28) =~= u64_bytes(header.max_vector_id));
    u32_read_back(d, 8, header.dimension);
    u64_read_back(d, 12, header.vector_count);
    u64_read_back(d, 20, header.max_vector_id);
}

/// Where each field of a header stands: the letters QVDB, the version, the metric (0
/// for the Euclidean distance, 1 for the dot product, 2 for the cosine), and from
/// bytes 8, 12 and 20 on the dimension, the number of vectors and the largest ID.
pub proof fn header_layout(header: FileHeader)
    ensures
        ({
            let d = header.encoded();
            &&& d.len() == 64
            &&& d[0] == 0x51 && d[1] == 0x56 && d[2] == 0x44 && d[3] == 0x42
            &&& d[4] == header.version
            &&& d[5] == (match header.metric {
                Metric::L2 => 0u8,
                Metric::DotProduct => 1u8,
                Metric::Cosine => 2u8,
            })
            &&& u32_at(d, 8) == header.dimension
            &&& u64_at(d, 12) == header.vector_count
            &&& u64_at(d, 20) == header.max_vector_id
            &&& forall|i: int| 6 <= i < 8 || 28 <= i < 64 ==> #[trigger] d[i] == 0
        }),
{
    let d = header.encoded();
    assert(d.subrange(8, 12) =~= u32_bytes(header.dimension));
    assert(d.subrange(12, 20) =~= u64_bytes(header.vector_count));
    assert(d.subrange(20, 28) =~= u64_bytes(header.max_vector_id));
    u32_read_back(d, 8, header.dimension);
    u64_read_back(d, 12, header.vector_count);
    u64_read_back(d, 20, header.max_vector_id);
}

/// A header is accepted if and only if it is long enough and has the letters, a
/// version from 1 to 3 and one of the three metrics; every field is then read from
/// its place.
pub proof fn accepted_header_is_valid(d: Seq<u8>)
    ensures
        parse_header(d) is Ok <==> {
            &&& d.len() >= 64
            &&& d[0] == 0x51 && d[1] == 0x56 && d[2] == 0x44 && d[3] == 0x42
            &&& 1 <= d[4] <= 3
            &&& d[5] <= 2
        },
        parse_header(d) matches Ok(h) ==> {
            &&& h.version == d[4]
            &&& h.metric == (if d[5] == 0 {
                Metric::L2
            } else if d[5] == 1 {
                Metric::DotProduct
            } else {
                Metric::Cosine
            })
            &&& h.dimension == u32_at(d, 8)
            &&& h.vector_count == u64_at(d, 12)
            &&& h.max_vector_id == u64_at(d, 20)
        },
{
    if d.len() >= 64 {
        let s = d.subrange(0, 4);
        assert(s[0] == d[0] && s[1] == d[1] && s[2] == d[2] && s[3] == d[3]);
        if d[0] == 0x51 && d[1] == 0x56 && d[2] == 0x44 && d[3] == 0x42 {
            assert(s =~= magic());
        }
    }
}

} // verus!

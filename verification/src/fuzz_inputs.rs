//! Vector files made from arbitrary bytes, to exercise the file parser.
use vstd::prelude::*;

use crate::bytes::{u32_bytes, u64_bytes};
use crate::distance::Metric;
use crate::storage::format::{file_bytes, file_round_trip, parse_file, put_vector, record_bytes,
    records_bytes, stored_vectors, vector_bytes};
use crate::storage::header::{magic, FileHeader, HEADER_SIZE};

verus! {

/// The byte at `i`, or 0 behind the end.
pub open spec fn byte_or_zero(input: Seq<u8>, i: int) -> u8 {
    if i < input.len() { input[i] } else { 0 }
}

/// A header of which the magic bytes and the version are given and `input` fills
/// the metric and all other fields, then the rest of `input`.
pub open spec fn synthesized(input: Seq<u8>, version: u8) -> Seq<u8> {
    magic() + seq![version] + Seq::new(23, |i: int| byte_or_zero(input, i)) + Seq::new(
        36,
        |i: int| 0u8,
    ) + (if input.len() > 23 { input.skip(23) } else { Seq::empty() })
}

/// A file with the supported magic bytes and version, all else under the control
/// of `input`.
pub fn synthesized_file(input: &[u8], version: u8) -> (file: Vec<u8>)
    ensures
        file@ == synthesized(input@, version),
        file@.len() >= HEADER_SIZE,
{
    let mut file: Vec<u8> = Vec::new();
    file.push(81);
    file.push(86);
    file.push(68);
    file.push(66);
    file.push(version);
    assert(file@ =~= magic() + seq![version]);
    let ghost opening = file@;
    for i in 0..23usize
        invariant
            opening.len() == 5,
            file@ =~= opening + Seq::new(i as nat, |j: int| byte_or_zero(input@, j)),
    {
        file.push(
            if i < input.len() {
                input[i]
            } else {
                0
            },
        );
    }
    let ghost fields = file@;
    for i in 0..36usize
        invariant
            file@ =~= fields + Seq::new(i as nat, |j: int| 0u8),
    {
        file.push(0);
    }
    if input.len() > 23 {
        let ghost head = file@;
        file.extend_from_slice(vstd::slice::slice_subrange(input, 23, input.len()));
        assert(file@ =~= head + input@.skip(23));
    }
    assert(file@ =~= synthesized(input@, version));
    file
}

/// A valid file with one vector of two components.
pub open spec fn valid_file(version: u8) -> Seq<u8> {
    magic() + seq![version, 0u8, 0u8, 0u8] + u32_bytes(2) + u64_bytes(1) + u64_bytes(1) + Seq::new(
        36,
        |i: int| 0u8,
    ) + (if version >= 2 { u64_bytes(1) } else { Seq::empty() }) + vector_bytes(
        seq![0x3f80_0000u32, 0x4000_0000u32],
    )
}

/// `file` with the bytes changed that the first `n` pairs of `input` name: the
/// first byte of a pair says where, the second which bits.
pub open spec fn mutated(file: Seq<u8>, input: Seq<u8>, n: nat) -> Seq<u8>
    decreases n,
{
    if n == 0 {
        file
    } else {
        let before = mutated(file, input, (n - 1) as nat);
        let at = input[2 * (n - 1)] as int % before.len() as int;
        before.update(at, before[at] ^ input[2 * (n - 1) + 1])
    }
}

/// A valid file in which `input` has changed some bytes.
pub fn mutated_valid_file(input: &[u8], version: u8) -> (file: Vec<u8>)
    ensures
        file@ == mutated(valid_file(version), input@, input@.len() / 2),
        file@.len() == valid_file(version).len(),
{
    let mut file: Vec<u8> = Vec::new();
    file.push(81);
    file.push(86);
    file.push(68);
    file.push(66);
    file.push(version);
    file.push(0);
    file.push(0);
    file.push(0);
    assert(file@ =~= magic() + seq![version, 0u8, 0u8, 0u8]);
    crate::bytes::put_u32(&mut file, 2);
    crate::bytes::put_u64(&mut file, 1);
    crate::bytes::put_u64(&mut file, 1);
    let ghost fields = file@;
    for i in 0..36usize
        invariant
            file@ =~= fields + Seq::new(i as nat, |j: int| 0u8),
    {
        file.push(0);
    }
    if version >= 2 {
        crate::bytes::put_u64(&mut file, 1);
    }
    let vector: [u32; 2] = [0x3f80_0000, 0x4000_0000];
    assert(vector@ =~= seq![0x3f80_0000u32, 0x4000_0000u32]);
    put_vector(&mut file, &vector);
    assert(file@ =~= valid_file(version));
    let ghost whole = valid_file(version);
    let pairs: usize = input.len() / 2;
    for i in 0..pairs
        invariant
            pairs == input.len() / 2,
            whole == valid_file(version),
            whole.len() >= HEADER_SIZE,
            file@.len() == whole.len(),
            file@ == mutated(whole, input@, i as nat),
    {
        let at: usize = input[2 * i] as usize % file.len();
        let byte: u8 = file[at] ^ input[2 * i + 1];
        file.set(at, byte);
    }
    file
}

/// Every byte of a synthesized file, by its place.
pub proof fn synthesized_bytes(input: Seq<u8>, version: u8)
    ensures
        ({
            let d = synthesized(input, version);
            &&& d.len() == (if input.len() <= 23 { 64 } else { 41 + input.len() })
            &&& d[0] == 0x51 && d[1] == 0x56 && d[2] == 0x44 && d[3] == 0x42 && d[4] == version
            &&& forall|i: int|
                5 <= i < 28 ==> #[trigger] d[i] == (if i - 5 < input.len() {
                    input[i - 5]
                } else {
                    0
                })
            &&& forall|i: int| 28 <= i < 64 ==> #[trigger] d[i] == 0
            &&& forall|i: int| 64 <= i < d.len() ==> #[trigger] d[i] == input[i - 41]
        }),
{
}

/// The file that is mutated is valid in each version: it holds the one vector, whose
/// ID is 1.
pub proof fn valid_file_is_accepted(version: u8)
    requires
        1 <= version <= 3,
    ensures
        parse_file(valid_file(version)) matches Ok(layout) ==> {
            &&& layout.ids == seq![1u64]
            &&& stored_vectors(valid_file(version), layout) == seq![
                seq![0x3f80_0000u32, 0x4000_0000u32],
            ]
        },
        parse_file(valid_file(version)) is Ok,
{
    let d = valid_file(version);
    let header = FileHeader {
        version,
        metric: Metric::L2,
        dimension: 2,
        vector_count: 1,
        max_vector_id: 1,
    };
    let v = seq![0x3f80_0000u32, 0x4000_0000u32];
    let ids = seq![1u64];
    let vectors = seq![v];
    assert(records_bytes(version, ids, vectors, 0) =~= Seq::empty());
    assert(records_bytes(version, ids, vectors, 1) =~= record_bytes(version, 1, v));
    assert(d =~= file_bytes(header, ids, vectors));
    assert(d + Seq::empty() =~= d);
    file_round_trip(header, ids, vectors, Seq::empty());
}

/// Whether the pair that comes `j`-th in `input` names the byte at `i` of a file.
pub open spec fn names_byte(input: Seq<u8>, j: int, len: nat, i: int) -> bool {
    input[2 * j] as int % len as int == i
}

/// A mutation keeps each byte that no pair of the input names, and in one that a single
/// pair names it flips the bits that the pair gives.
pub proof fn mutation_changes_named_bytes(file: Seq<u8>, input: Seq<u8>, n: nat)
    requires
        file.len() > 0,
        2 * n <= input.len(),
    ensures
        mutated(file, input, n).len() == file.len(),
        forall|i: int|
            0 <= i < file.len() && (forall|j: int|
                0 <= j < n ==> !#[trigger] names_byte(input, j, file.len(), i)) ==> #[trigger] mutated(
                file,
                input,
                n,
            )[i] == file[i],
        forall|i: int, j: int|
            0 <= i < file.len() && 0 <= j < n && #[trigger] names_byte(input, j, file.len(), i) && (
            forall|x: int| 0 <= x < n && x != j ==> !#[trigger] names_byte(input, x, file.len(), i))
                ==> mutated(file, input, n)[i] == file[i] ^ input[2 * j + 1],
    decreases n,
{
    if n > 0 {
        let fewer = (n - 1) as nat;
        mutation_changes_named_bytes(file, input, fewer);
        let before = mutated(file, input, fewer);
        let after = mutated(file, input, n);
        assert forall|i: int|
            0 <= i < file.len() && (forall|j: int|
                0 <= j < n ==> !#[trigger] names_byte(
                    input,
                    j,
                    file.len(),
                    i,
                )) implies #[trigger] after[i] == file[i] by {
            assert(!names_byte(input, n - 1, file.len(), i));
            assert(before[i] == file[i]);
        }
        assert forall|i: int, j: int|
            0 <= i < file.len() && 0 <= j < n && #[trigger] names_byte(input, j, file.len(), i) && (
            forall|x: int|
                0 <= x < n && x != j ==> !#[trigger] names_byte(
                    input,
                    x,
                    file.len(),
                    i,
                )) implies after[i] == file[i] ^ input[2 * j + 1] by {
            if j == n - 1 {
                assert(before[i] == file[i]);
            } else {
                assert(!names_byte(input, n - 1, file.len(), i));
                assert(before[i] == file[i] ^ input[2 * j + 1]);
            }
        }
    }
}

} // verus!

//! Data sets and measures of the benchmarks.
use vstd::prelude::*;
use vstd::string::*;

use crate::bytes::{get_u32, u32_at, u32_bytes, u32_read_back};
use crate::distance::less32;
use crate::error::{invalid, ErrorView, QuiverError};
use crate::index::kernel::{distance, is_kernel, measure};
use crate::index::ranking::{closest, closest_are_the_closest, is_ranked, offer_closest, place,
    place_bounds, ranked_insert, Candidate};
use crate::index::SearchResult;
use crate::metadata::{MetaValue, Metadata, ValueView};
use crate::metadata_encoding::malformed;
use crate::storage::format::{read_vector, vector_at, vector_bytes, vector_read_back};
use crate::text::{decimal, push_decimal};

verus! {

/// The largest dimension that a data set may have.
pub const MAX_DIMENSION: u32 = 65536;

/// The number in two's complement that these 32 bits spell.
pub open spec fn signed(n: u32) -> int {
    if n < 0x8000_0000 { n as int } else { n - 0x1_0000_0000 }
}

/// A number with its sign, in decimal.
pub open spec fn signed_decimal(n: int) -> Seq<char> {
    if n < 0 { "-"@ + decimal((-n) as nat) } else { ""@ + decimal(n as nat) }
}

/// The dimension of the row at `at`; none at the end of the data.
pub open spec fn row_dimension(d: Seq<u8>, at: int) -> Result<Option<nat>, ErrorView> {
    if at + 4 > d.len() {
        Ok(None)
    } else if !(0 < signed(u32_at(d, at)) <= MAX_DIMENSION) {
        malformed("invalid vector dimension "@ + signed_decimal(signed(u32_at(d, at))))
    } else {
        Ok(Some(u32_at(d, at) as nat))
    }
}

/// At most `limit` rows of a data set from `at` on: each is its dimension and
/// that many numbers of four bytes.
pub open spec fn parse_rows(d: Seq<u8>, at: int, limit: nat) -> Result<Seq<Seq<u32>>, ErrorView>
    decreases limit,
{
    if limit == 0 {
        Ok(Seq::empty())
    } else {
        match row_dimension(d, at) {
            Err(e) => Err(e),
            Ok(None) => Ok(Seq::empty()),
            Ok(Some(n)) => if at + 4 + 4 * n > d.len() {
                malformed("failed to fill whole buffer"@)
            } else {
                match parse_rows(d, at + 4 + 4 * n, (limit - 1) as nat) {
                    Err(e) => Err(e),
                    Ok(rest) => Ok(seq![vector_at(d, at + 4, n)] + rest),
                }
            },
        }
    }
}

/// Reads the dimension of the row at `at`.
pub fn read_dimension(data: &[u8], at: usize) -> (result: Result<Option<usize>, QuiverError>)
    requires
        at <= data.len(),
    ensures
        match result {
            Ok(Some(n)) => row_dimension(data@, at as int) == Ok::<Option<nat>, ErrorView>(
                Some(n as nat),
            ) && 0 < n <= MAX_DIMENSION && at + 4 <= data.len(),
            Ok(None) => row_dimension(data@, at as int) == Ok::<Option<nat>, ErrorView>(None),
            Err(e) => row_dimension(data@, at as int) == Err::<Option<nat>, ErrorView>(e@),
        },
{
    if data.len() - at < 4 {
        return Ok(None);
    }
    let n: u32 = get_u32(data, at);
    if n == 0 || n > MAX_DIMENSION {
        let mut text = "invalid vector dimension ".to_owned();
        let ghost opening = text@;
        if n < 0x8000_0000 {
            text.append("");
            push_decimal(&mut text, n as u64);
            assert(text@ =~= opening + signed_decimal(signed(n)));
        } else {
            text.append("-");
            push_decimal(&mut text, 0x1_0000_0000 - n as u64);
            assert(text@ =~= opening + signed_decimal(signed(n)));
        }
        return Err(QuiverError::InvalidFormat(text));
    }
    Ok(Some(n as usize))
}

/// The views of some rows.
pub open spec fn row_views(rows: Seq<Vec<u32>>) -> Seq<Seq<u32>> {
    Seq::new(rows.len(), |i: int| rows[i]@)
}

/// Reads at most `limit` rows of a data set.
pub fn read_vecs(data: &[u8], limit: usize) -> (result: Result<Vec<Vec<u32>>, QuiverError>)
    ensures
        match result {
            Ok(rows) => parse_rows(data@, 0, limit as nat) == Ok::<Seq<Seq<u32>>, ErrorView>(
                row_views(rows@),
            ),
            Err(e) => parse_rows(data@, 0, limit as nat) == Err::<Seq<Seq<u32>>, ErrorView>(e@),
        },
{
    let mut rows: Vec<Vec<u32>> = Vec::new();
    let mut at: usize = 0;
    let mut left: usize = limit;
    let ghost goal = parse_rows(data@, 0, limit as nat);
    proof {
        if goal is Ok {
            assert(row_views(rows@) + goal->Ok_0 =~= goal->Ok_0);
        }
    }
    while left > 0
        invariant
            at <= data.len(),
            goal == parse_rows(data@, 0, limit as nat),
            match parse_rows(data@, at as int, left as nat) {
                Ok(rest) => goal == Ok::<Seq<Seq<u32>>, ErrorView>(row_views(rows@) + rest),
                Err(e) => goal == Err::<Seq<Seq<u32>>, ErrorView>(e),
            },
        ensures
            goal == Ok::<Seq<Seq<u32>>, ErrorView>(row_views(rows@)),
        decreases left,
    {
        match read_dimension(data, at) {
            Err(e) => return Err(e),
            Ok(None) => {
                assert(row_views(rows@) + Seq::<Seq<u32>>::empty() =~= row_views(rows@));
                break;
            },
            Ok(Some(n)) => {
                if data.len() - at - 4 < 4 * n {
                    return Err(invalid("failed to fill whole buffer"));
                }
                let row = read_vector(data, at + 4, n);
                let ghost before = row_views(rows@);
                let ghost read = row@;
                rows.push(row);
                proof {
                    assert(row_views(rows@) =~= before.push(read));
                    if let Ok(rest) = parse_rows(data@, at + 4 + 4 * n, (left - 1) as nat) {
                        assert(before + (seq![read] + rest) =~= before.push(read) + rest);
                    }
                }
                at = at + 4 + 4 * n;
                left = left - 1;
                assert(left == 0 ==> row_views(rows@) + Seq::<Seq<u32>>::empty() =~= row_views(
                    rows@,
                ));
            },
        }
    }
    Ok(rows)
}

/// The metadata of the vector at a position of the filtered benchmark.
pub fn position_metadata(position: usize) -> (metadata: Metadata)
    ensures
        metadata.map() == Map::<Seq<char>, ValueView>::empty().insert(
            "cat100"@,
            ValueView::Int((position % 100) as i64),
        ).insert("cat10"@, ValueView::Int((position % 10) as i64)).insert(
            "parity"@,
            ValueView::Int((position % 2) as i64),
        ),
{
    let mut metadata = Metadata::new();
    assert(metadata.map() =~= Map::<Seq<char>, ValueView>::empty());
    metadata.insert("cat100".to_owned(), MetaValue::Int((position % 100) as i64));
    metadata.insert("cat10".to_owned(), MetaValue::Int((position % 10) as i64));
    metadata.insert("parity".to_owned(), MetaValue::Int((position % 2) as i64));
    metadata
}

/// Whether a result is among the first `k` expected positions; the vector at
/// position `p` has the ID `p + 1`.
pub open spec fn is_expected(result: SearchResult, expected: Seq<u32>, k: nat) -> bool {
    exists|j: int|
        0 <= j < expected.len() && j < k && result.vector_id == #[trigger] expected[j] + 1
}

/// How many of the first `n` results are expected.
pub open spec fn match_count(
    found: Seq<SearchResult>,
    expected: Seq<u32>,
    k: nat,
    n: nat,
) -> nat
    decreases n,
{
    if n == 0 {
        0
    } else {
        match_count(found, expected, k, (n - 1) as nat) + (if is_expected(
            found[n - 1],
            expected,
            k,
        ) {
            1nat
        } else {
            0nat
        })
    }
}

/// How many results are among the first `k` expected positions.
pub fn count_matches(found: &[SearchResult], expected: &[u32], k: usize) -> (n: usize)
    ensures
        n == match_count(found@, expected@, k as nat, found@.len()),
        n <= found@.len(),
{
    let mut n: usize = 0;
    for i in 0..found.len()
        invariant
            n <= i,
            n == match_count(found@, expected@, k as nat, i as nat),
    {
        let mut hit: bool = false;
        let mut j: usize = 0;
        while j < expected.len() && j < k && !hit
            invariant
                j <= expected@.len(),
                i < found@.len(),
                hit ==> is_expected(found@[i as int], expected@, k as nat),
                !hit ==> forall|x: int|
                    0 <= x < j ==> found@[i as int].vector_id != #[trigger] expected@[x] + 1,
            decreases expected@.len() - j,
        {
            if found[i].vector_id == expected[j] as u64 + 1 {
                assert(found@[i as int].vector_id == expected@[j as int] + 1);
                hit = true;
            }
            j = j + 1;
        }
        if hit {
            n = n + 1;
        }
    }
    n
}

/// The vector at a position of a flat list of vectors.
pub open spec fn flat_vector(base: Seq<u32>, dimension: int, slot: int) -> Seq<u32> {
    base.subrange(slot * dimension, slot * dimension + dimension)
}

/// Some positions of a flat list of vectors, with their distances from a query.
pub open spec fn slot_candidates<K: Fn(&[u32], &[u32]) -> u32>(
    kernel: K,
    query: Seq<u32>,
    base: Seq<u32>,
    dimension: int,
    slots: Seq<u32>,
) -> Seq<Candidate> {
    Seq::new(
        slots.len(),
        |i: int|
            Candidate {
                node_idx: slots[i] as usize,
                distance: distance(kernel, query, flat_vector(base, dimension, slots[i] as int)),
            },
    )
}

/// The `k` of some positions that are nearest to a query, the nearest first.
pub open spec fn nearest_slots<K: Fn(&[u32], &[u32]) -> u32>(
    kernel: K,
    query: Seq<u32>,
    base: Seq<u32>,
    dimension: int,
    slots: Seq<u32>,
    k: nat,
) -> Seq<Candidate> {
    closest(slot_candidates(kernel, query, base, dimension, slots), k)
}

/// Whether a flat list has a vector at every one of some positions.
pub open spec fn slots_exist(base: Seq<u32>, dimension: int, slots: Seq<u32>) -> bool {
    forall|i: int|
        0 <= i < slots.len() ==> 0 <= #[trigger] slots[i] * dimension && slots[i] * dimension
            + dimension <= base.len()
}

/// Finds the `k` of some positions that are nearest to a query, the nearest
/// first.
pub fn nearest_among<K: Fn(&[u32], &[u32]) -> u32>(
    kernel: &K,
    query: &[u32],
    base: &[u32],
    slots: &[u32],
    k: usize,
) -> (found: Vec<u32>)
    requires
        query@.len() <= u32::MAX,
        is_kernel(*kernel, query@.len() as u32),
        slots_exist(base@, query@.len() as int, slots@),
    ensures
        ({
            let near = nearest_slots(*kernel, query@, base@, query@.len() as int, slots@, k as nat);
            found@ == Seq::new(near.len(), |i: int| near[i].node_idx as u32)
        }),
{
    let dimension: usize = query.len();
    let ghost all = slot_candidates(*kernel, query@, base@, dimension as int, slots@);
    let mut near: Vec<Candidate> = Vec::new();
    assert(all.take(0) =~= Seq::empty());
    for i in 0..slots.len()
        invariant
            query@.len() == dimension,
            dimension <= u32::MAX,
            is_kernel(*kernel, dimension as u32),
            slots_exist(base@, dimension as int, slots@),
            all == slot_candidates(*kernel, query@, base@, dimension as int, slots@),
            is_ranked(near@),
            near@ == closest(all.take(i as int), k as nat),
    {
        let slot: usize = slots[i] as usize;
        assert(0 <= slots@[i as int] * dimension && slots@[i as int] * dimension + dimension
            <= base.len());
        let start: usize = slot * dimension;
        let vector = vstd::slice::slice_subrange(base, start, start + dimension);
        let c = Candidate { node_idx: slot, distance: measure(kernel, query, vector) };
        proof {
            assert(vector@ == flat_vector(base@, dimension as int, slot as int));
            assert(all[i as int] == c);
            assert(all.take(i + 1).drop_last() =~= all.take(i as int));
            assert(all.take(i + 1).last() == c);
        }
        offer_closest(&mut near, c, k);
    }
    assert(all.take(all.len() as int) =~= all);
    proof {
        assert forall|i: int| 0 <= i < all.len() implies (#[trigger] all[i]).node_idx <= u32::MAX by {}
        closest_nodes_bounded(all, k as nat, u32::MAX as int);
    }
    let mut found: Vec<u32> = Vec::with_capacity(near.len());
    for i in 0..near.len()
        invariant
            forall|j: int| 0 <= j < near@.len() ==> (#[trigger] near@[j]).node_idx <= u32::MAX,
            found@ =~= Seq::new(i as nat, |j: int| near@[j].node_idx as u32),
    {
        found.push(near[i].node_idx as u32);
    }
    found
}

proof fn closest_nodes_bounded(s: Seq<Candidate>, k: nat, max: int)
    requires
        forall|i: int| 0 <= i < s.len() ==> (#[trigger] s[i]).node_idx <= max,
    ensures
        forall|i: int| 0 <= i < closest(s, k).len() ==> (#[trigger] closest(s, k)[i]).node_idx <= max,
    decreases s.len(),
{
    if s.len() > 0 {
        let t = s.drop_last();
        assert forall|i: int| 0 <= i < t.len() implies (#[trigger] t[i]).node_idx <= max by {
            assert(t[i] == s[i]);
        }
        closest_nodes_bounded(t, k, max);
        let c = s.last();
        assert(s[s.len() - 1].node_idx <= max);
        let list = closest(t, k);
        let r = if list.len() < k || list.len() == 0 { list } else { list.drop_last() };
        place_bounds(r, c.rank());
        let p = place(r, c.rank());
        let a = ranked_insert(r, c);
        assert forall|i: int| 0 <= i < a.len() implies (#[trigger] a[i]).node_idx <= max by {
            if i < p {
                assert(a[i] == r[i]);
            } else if i > p {
                assert(a[i] == r[i - 1]);
            }
        }
    }
}

/// For every list of positions and every query the exact nearest positions, as
/// `truth[list][query]`.
pub fn filtered_ground_truth<K: Fn(&[u32], &[u32]) -> u32>(
    kernel: &K,
    base: &[u32],
    dimension: usize,
    queries: &[Vec<u32>],
    matching_slots: &[Vec<u32>],
    k: usize,
) -> (truth: Vec<Vec<Vec<u32>>>)
    requires
        dimension <= u32::MAX,
        is_kernel(*kernel, dimension as u32),
        forall|i: int| 0 <= i < queries@.len() ==> (#[trigger] queries@[i])@.len() == dimension,
        forall|i: int|
            0 <= i < matching_slots@.len() ==> slots_exist(
                base@,
                dimension as int,
                (#[trigger] matching_slots@[i])@,
            ),
    ensures
        truth@.len() == matching_slots@.len(),
        forall|i: int|
            0 <= i < truth@.len() ==> (#[trigger] truth@[i])@.len() == queries@.len(),
        forall|i: int, q: int|
            0 <= i < truth@.len() && 0 <= q < queries@.len() ==> {
                let near = nearest_slots(
                    *kernel,
                    queries@[q]@,
                    base@,
                    dimension as int,
                    matching_slots@[i]@,
                    k as nat,
                );
                (#[trigger] truth@[i]@[q])@ == Seq::new(near.len(), |j: int| near[j].node_idx as u32)
            },
{
    let mut truth: Vec<Vec<Vec<u32>>> = Vec::with_capacity(matching_slots.len());
    for i in 0..matching_slots.len()
        invariant
            dimension <= u32::MAX,
            is_kernel(*kernel, dimension as u32),
            forall|x: int| 0 <= x < queries@.len() ==> (#[trigger] queries@[x])@.len() == dimension,
            forall|x: int|
                0 <= x < matching_slots@.len() ==> slots_exist(
                    base@,
                    dimension as int,
                    (#[trigger] matching_slots@[x])@,
                ),
            truth@.len() == i,
            forall|x: int| 0 <= x < i ==> (#[trigger] truth@[x])@.len() == queries@.len(),
            forall|x: int, q: int|
                0 <= x < i && 0 <= q < queries@.len() ==> {
                    let near = nearest_slots(
                        *kernel,
                        queries@[q]@,
                        base@,
                        dimension as int,
                        matching_slots@[x]@,
                        k as nat,
                    );
                    (#[trigger] truth@[x]@[q])@ == Seq::new(
                        near.len(),
                        |j: int| near[j].node_idx as u32,
                    )
                },
    {
        let slots = &matching_slots[i];
        let mut rows: Vec<Vec<u32>> = Vec::with_capacity(queries.len());
        for q in 0..queries.len()
            invariant
                dimension <= u32::MAX,
                is_kernel(*kernel, dimension as u32),
                forall|x: int|
                    0 <= x < queries@.len() ==> (#[trigger] queries@[x])@.len() == dimension,
                slots_exist(base@, dimension as int, slots@),
                rows@.len() == q,
                forall|x: int|
                    0 <= x < q ==> {
                        let near = nearest_slots(
                            *kernel,
                            queries@[x]@,
                            base@,
                            dimension as int,
                            slots@,
                            k as nat,
                        );
                        (#[trigger] rows@[x])@ == Seq::new(
                            near.len(),
                            |j: int| near[j].node_idx as u32,
                        )
                    },
        {
            assert(queries@[q as int]@.len() == dimension);
            rows.push(
                nearest_among(kernel, queries[q].as_slice(), base, slots.as_slice(), k),
            );
        }
        truth.push(rows);
    }
    truth
}

/// What is wrong with the arguments for the flag that comes `i`-th, if anything:
/// each flag is followed by its value, in the order of `flags`.
pub open spec fn flag_fault(args: Seq<Seq<char>>, flags: Seq<Seq<char>>, i: int) -> Option<
    Seq<char>,
> {
    if args.len() <= 2 * i {
        Some("missing "@ + flags[i])
    } else if args[2 * i] != flags[i] {
        Some("expected "@ + flags[i] + ", got "@ + args[2 * i])
    } else if args.len() <= 2 * i + 1 {
        Some("missing value for "@ + flags[i])
    } else {
        None
    }
}

/// The views of some strings.
pub open spec fn text_views(list: Seq<String>) -> Seq<Seq<char>> {
    Seq::new(list.len(), |i: int| list[i]@)
}

/// Takes the value of each flag from the arguments of a program, which name the
/// flags in a fixed order.
pub fn flag_values(args: &[String], flags: &[String]) -> (result: Result<Vec<String>, String>)
    requires
        2 * flags.len() <= usize::MAX,
    ensures
        match result {
            Ok(values) => {
                &&& values@.len() == flags@.len()
                &&& forall|i: int|
                    0 <= i < flags@.len() ==> flag_fault(text_views(args@), text_views(flags@), i)
                        is None && (#[trigger] values@[i])@ == text_views(args@)[2 * i + 1]
            },
            Err(text) => exists|i: int|
                0 <= i < flags@.len() && #[trigger] flag_fault(
                    text_views(args@),
                    text_views(flags@),
                    i,
                ) == Some(text@) && flags_fit(text_views(args@), text_views(flags@), i),
        },
{
    let mut values: Vec<String> = Vec::with_capacity(flags.len());
    let ghost a = text_views(args@);
    let ghost f = text_views(flags@);
    for i in 0..flags.len()
        invariant
            2 * flags.len() <= usize::MAX,
            a == text_views(args@),
            f == text_views(flags@),
            values@.len() == i,
            flags_fit(a, f, i as int),
            forall|j: int| 0 <= j < i ==> (#[trigger] values@[j])@ == a[2 * j + 1],
    {
        if args.len() <= 2 * i {
            let mut text = "missing ".to_owned();
            text.append(flags[i].as_str());
            assert(flag_fault(a, f, i as int) == Some(text@));
            return Err(text);
        }
        if !(args[2 * i] == flags[i]) {
            let mut text = "expected ".to_owned();
            text.append(flags[i].as_str());
            text.append(", got ");
            text.append(args[2 * i].as_str());
            assert(flag_fault(a, f, i as int) == Some(text@));
            return Err(text);
        }
        if args.len() <= 2 * i + 1 {
            let mut text = "missing value for ".to_owned();
            text.append(flags[i].as_str());
            assert(flag_fault(a, f, i as int) == Some(text@));
            return Err(text);
        }
        values.push(args[2 * i + 1].clone());
    }
    Ok(values)
}

/// Whether the arguments are right up to the flag that comes `n`-th.
pub open spec fn flags_fit(args: Seq<Seq<char>>, flags: Seq<Seq<char>>, n: int) -> bool {
    forall|i: int| 0 <= i < n ==> #[trigger] flag_fault(args, flags, i) is None
}

/// The engines of the compression benchmark.
#[derive(Debug, Clone, Copy, PartialEq, Eq, Structural)]
pub enum Engine {
    Sq8,
    BruteForce,
}

/// The engine that an argument names.
pub fn parse_engine(name: &String) -> (result: Result<Engine, String>)
    ensures
        match result {
            Ok(engine) => if engine == Engine::Sq8 {
                name@ == "sq8"@
            } else {
                name@ == "brute-force"@
            },
            Err(text) => name@ != "sq8"@ && name@ != "brute-force"@ && text@
                == "unsupported engine "@ + name@,
        },
{
    if *name == "sq8".to_owned() {
        Ok(Engine::Sq8)
    } else if *name == "brute-force".to_owned() {
        Ok(Engine::BruteForce)
    } else {
        let mut text = "unsupported engine ".to_owned();
        text.append(name.as_str());
        Err(text)
    }
}

/// The positions below `n` that leave `value` when divided by `modulus`.
pub open spec fn positions(modulus: int, value: int, n: nat) -> Seq<u32>
    decreases n,
{
    if n == 0 {
        Seq::empty()
    } else if (n - 1) % modulus == value {
        positions(modulus, value, (n - 1) as nat).push((n - 1) as u32)
    } else {
        positions(modulus, value, (n - 1) as nat)
    }
}

/// The positions below `n` that leave `value` when divided by `modulus`, in
/// ascending order.
pub fn matching_positions(n: u32, modulus: u32, value: u32) -> (list: Vec<u32>)
    requires
        modulus > 0,
    ensures
        list@ == positions(modulus as int, value as int, n as nat),
{
    let mut list: Vec<u32> = Vec::new();
    for position in 0..n
        invariant
            modulus > 0,
            list@ == positions(modulus as int, value as int, position as nat),
    {
        if position % modulus == value {
            list.push(position);
        }
    }
    list
}

/// The positions are the numbers below `n` that leave `value` when divided by
/// `modulus`, all of them and in ascending order.
pub proof fn positions_are_exact(modulus: int, value: int, n: nat)
    requires
        modulus > 0,
        n <= 0x1_0000_0000,
    ensures
        forall|p: u32|
            #[trigger] positions(modulus, value, n).contains(p) <==> p < n && (p as int) % modulus
                == value,
        forall|i: int, j: int|
            0 <= i < j < positions(modulus, value, n).len() ==> positions(modulus, value, n)[i]
                < positions(modulus, value, n)[j],
    decreases n,
{
    if n > 0 {
        let fewer = (n - 1) as nat;
        positions_are_exact(modulus, value, fewer);
        let a = positions(modulus, value, fewer);
        let b = positions(modulus, value, n);
        if (n - 1) % modulus == value {
            assert forall|p: u32| #[trigger] b.contains(p) <==> p < n && (p as int) % modulus
                == value by {
                if p == n - 1 {
                    assert(b[b.len() - 1] == p);
                } else {
                    if b.contains(p) {
                        let i = choose|i: int| 0 <= i < b.len() && b[i] == p;
                        assert(a[i] == p);
                        assert(a.contains(p));
                    }
                    if a.contains(p) {
                        let i = choose|i: int| 0 <= i < a.len() && a[i] == p;
                        assert(b[i] == p);
                    }
                }
            }
            assert forall|i: int, j: int| 0 <= i < j < b.len() implies b[i] < b[j] by {
                assert(a.contains(a[i]));
            }
        }
    }
}

/// The matches counted are the results whose ID is one more than a position among
/// the first `k` expected.
pub proof fn matches_are_counted(found: Seq<SearchResult>, expected: Seq<u32>, k: nat, n: nat)
    requires
        n <= found.len(),
    ensures
        match_count(found, expected, k, n) == found.take(n as int).filter(
            |r: SearchResult|
                exists|j: int|
                    0 <= j < expected.len() && j < k && #[trigger] expected[j] == r.vector_id - 1,
        ).len(),
    decreases n,
{
    reveal(Seq::filter);
    if n > 0 {
        matches_are_counted(found, expected, k, (n - 1) as nat);
        let r = found[n - 1];
        assert(found.take(n as int).drop_last() =~= found.take(n - 1));
        assert(found.take(n as int).last() == r);
        if is_expected(r, expected, k) {
            let j = choose|j: int|
                0 <= j < expected.len() && j < k && r.vector_id == #[trigger] expected[j] + 1;
            assert(expected[j] == r.vector_id - 1);
        }
        if exists|j: int|
            0 <= j < expected.len() && j < k && #[trigger] expected[j] == r.vector_id - 1 {
            let j = choose|j: int|
                0 <= j < expected.len() && j < k && #[trigger] expected[j] == r.vector_id - 1;
            assert(r.vector_id == expected[j] + 1);
        }
    }
}

/// The rows of a data set as they stand in the file.
pub open spec fn rows_bytes(rows: Seq<Seq<u32>>) -> Seq<u8>
    decreases rows.len(),
{
    if rows.len() == 0 {
        Seq::empty()
    } else {
        u32_bytes(rows[0].len() as u32) + vector_bytes(rows[0]) + rows_bytes(rows.skip(1))
    }
}

/// The rows of a data set are read back from where they stand, up to the limit; each
/// has from 1 to 65536 numbers.
pub proof fn rows_are_read_back(d: Seq<u8>, at: int, rows: Seq<Seq<u32>>, limit: nat)
    requires
        0 <= at <= d.len(),
        d.skip(at) == rows_bytes(rows),
        forall|i: int| 0 <= i < rows.len() ==> 1 <= (#[trigger] rows[i]).len() <= 65536,
    ensures
        parse_rows(d, at, limit) == Ok::<Seq<Seq<u32>>, ErrorView>(
            if rows.len() <= limit {
                rows
            } else {
                rows.take(limit as int)
            },
        ),
    decreases rows.len(),
{
    let tail = d.skip(at);
    if limit == 0 {
        assert(rows.take(0) =~= Seq::empty());
        if rows.len() == 0 {
            assert(rows =~= Seq::empty());
        }
    } else if rows.len() == 0 {
        assert(rows =~= Seq::empty());
        assert(tail.len() == 0);
        assert(d.len() == at);
    } else {
        let v = rows[0];
        let n = v.len();
        let rest = rows.skip(1);
        let next = at + 4 + 4 * n;
        let more = rows_bytes(rest);
        assert(tail.len() == 4 + 4 * n + more.len());
        assert(tail.subrange(0, 4) =~= u32_bytes(n as u32));
        assert(d.subrange(at, at + 4) =~= tail.subrange(0, 4));
        u32_read_back(d, at, n as u32);
        assert(tail.subrange(4, 4 + 4 * n as int) =~= vector_bytes(v));
        assert(d.subrange(at + 4, at + 4 + 4 * n) =~= tail.subrange(4, 4 + 4 * n as int));
        vector_read_back(d, at + 4, v);
        assert(tail.skip(4 + 4 * n as int) =~= more);
        assert(d.skip(next) =~= tail.skip(4 + 4 * n as int));
        assert forall|i: int| 0 <= i < rest.len() implies 1 <= (#[trigger] rest[i]).len()
            <= 65536 by {
            assert(rest[i] == rows[i + 1]);
        }
        rows_are_read_back(d, next, rest, (limit - 1) as nat);
        if rows.len() <= limit {
            assert(seq![v] + rest =~= rows);
        } else {
            assert(seq![v] + rest.take(limit - 1) =~= rows.take(limit as int));
        }
    }
}

/// The positions found nearest to a query are what they claim to be: in order, as many
/// as there can be, each one of those asked about with its own distance; and one that
/// is left out is not nearer than the last of them.
pub proof fn nearest_slots_are_nearest<K: Fn(&[u32], &[u32]) -> u32>(
    kernel: K,
    query: Seq<u32>,
    base: Seq<u32>,
    dimension: int,
    slots: Seq<u32>,
    k: nat,
)
    ensures
        ({
            let near = nearest_slots(kernel, query, base, dimension, slots, k);
            let d = |slot: u32|
                distance(
                    kernel,
                    query,
                    base.subrange(slot * dimension, (slot + 1) * dimension),
                );
            &&& near.len() == (if slots.len() <= k { slots.len() } else { k })
            &&& is_ranked(near)
            &&& forall|i: int|
                0 <= i < near.len() ==> slots.contains((#[trigger] near[i]).node_idx as u32)
                    && near[i].distance == d(near[i].node_idx as u32)
            &&& forall|i: int|
                0 <= i < slots.len() ==> near.contains(
                    (Candidate { node_idx: slots[i] as usize, distance: d(#[trigger] slots[i]) }),
                ) || (near.len() == k && (k > 0 ==> !less32(d(slots[i]), near.last().distance)))
        }),
{
    broadcast use vstd::seq_lib::group_to_multiset_ensures;

    let all = slot_candidates(kernel, query, base, dimension, slots);
    let near = closest(all, k);
    let d = |slot: u32|
        distance(kernel, query, base.subrange(slot * dimension, (slot + 1) * dimension));
    closest_are_the_closest(all, k);
    assert forall|i: int| 0 <= i < slots.len() implies #[trigger] all[i] == (Candidate {
        node_idx: slots[i] as usize,
        distance: d(slots[i]),
    }) by {
        let s = slots[i] as int;
        assert(s * dimension + dimension == (s + 1) * dimension) by (nonlinear_arith);
    }
    assert forall|i: int| 0 <= i < near.len() implies slots.contains(
        (#[trigger] near[i]).node_idx as u32,
    ) && near[i].distance == d(near[i].node_idx as u32) by {
        assert(near.contains(near[i]));
        assert(near.to_multiset().count(near[i]) > 0);
        assert(all.to_multiset().count(near[i]) > 0);
        assert(all.contains(near[i]));
        let j = choose|j: int| 0 <= j < all.len() && all[j] == near[i];
        assert(all[j].node_idx as u32 == slots[j]);
    }
    assert forall|i: int| 0 <= i < slots.len() implies near.contains(
        (Candidate { node_idx: slots[i] as usize, distance: d(#[trigger] slots[i]) }),
    ) || (near.len() == k && (k > 0 ==> !less32(d(slots[i]), near.last().distance))) by {
        assert(all[i].distance == d(slots[i]));
    }
}

} // verus!

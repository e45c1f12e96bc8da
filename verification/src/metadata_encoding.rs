//! The binary encoding of metadata, as the log and the snapshot carry it.
//!
//! ```text
//! [u8 version][u32 entry_count]
//! per entry (sorted by key):
//!   [u32 key_len][key UTF-8][u8 value tag][value payload]
//!   tags: 0 = bool [u8], 1 = int [i64 LE], 2 = float [f64 LE],
//!         3 = str [u32 len][bytes]
//! ```
use vstd::prelude::*;
use vstd::slice::slice_subrange;
use vstd::string::*;
use vstd::utf8::*;

use crate::bytes::{get_i64, get_u32, get_u64, i64_at, i64_bytes, i64_read_back, i64_written_back,
    put_i64, put_u32, put_u64, u32_at, u32_bytes, u32_read_back, u32_written_back, u64_at, u64_bytes,
    u64_read_back, u64_written_back};
use crate::error::{invalid, ErrorView, QuiverError};
use crate::metadata::{ascending, insert_keeps_listed, is_listed, key_order_total, listing,
    listing_is_canonical, listing_of_insert, listing_of_pairs, pairs_map, pairs_map_holds, place_from,
    MetaValue, Metadata, Pairs, ValueView};
use crate::text::{decimal, phrase};

verus! {

/// Version of the binary encoding, its first byte.
pub const METADATA_ENCODING_VERSION: u8 = 1;

/// Tag of a boolean.
pub const TAG_BOOL: u8 = 0;

/// Tag of an integer.
pub const TAG_INT: u8 = 1;

/// Tag of a floating-point number.
pub const TAG_FLOAT: u8 = 2;

/// Tag of a string.
pub const TAG_STR: u8 = 3;

/// A length as the encoding's length fields hold it, 32 bits of it.
pub open spec fn len_field(n: nat) -> u32 {
    (n % 0x1_0000_0000) as u32
}

/// The tag and payload of a value.
pub open spec fn value_bytes(v: ValueView) -> Seq<u8> {
    match v {
        ValueView::Bool(b) => seq![TAG_BOOL, if b { 1u8 } else { 0u8 }],
        ValueView::Int(i) => seq![TAG_INT] + i64_bytes(i),
        ValueView::Float(f) => seq![TAG_FLOAT] + u64_bytes(f),
        ValueView::Str(s) => seq![TAG_STR] + u32_bytes(len_field(encode_utf8(s).len()))
            + encode_utf8(s),
    }
}

/// One entry.
pub open spec fn pair_bytes(pair: (Seq<char>, ValueView)) -> Seq<u8> {
    u32_bytes(len_field(encode_utf8(pair.0).len())) + encode_utf8(pair.0) + value_bytes(pair.1)
}

/// All entries, in order.
pub open spec fn pairs_bytes(pairs: Pairs) -> Seq<u8>
    decreases pairs.len(),
{
    if pairs.len() == 0 {
        Seq::empty()
    } else {
        pair_bytes(pairs[0]) + pairs_bytes(pairs.drop_first())
    }
}

/// The whole encoding.
pub open spec fn metadata_bytes(pairs: Pairs) -> Seq<u8> {
    seq![METADATA_ENCODING_VERSION] + u32_bytes(len_field(pairs.len())) + pairs_bytes(pairs)
}

/// Whether the lengths in a value fit their fields.
pub open spec fn value_fits(v: ValueView) -> bool {
    v matches ValueView::Str(s) ==> encode_utf8(s).len() < 0x1_0000_0000
}

/// Whether every length fits its field.
pub open spec fn pairs_fit(pairs: Pairs) -> bool {
    &&& pairs.len() < 0x1_0000_0000
    &&& forall|i: int|
        0 <= i < pairs.len() ==> encode_utf8(#[trigger] pairs[i].0).len() < 0x1_0000_0000
            && value_fits(pairs[i].1)
}

/// The error for bytes that are no metadata.
pub open spec fn malformed<T>(text: Seq<char>) -> Result<T, ErrorView> {
    Err(ErrorView::InvalidFormat(text))
}

/// The text of `len` bytes at `at`, and where it ends. What is wrong is worded
/// by `overflow`, `truncated` or `not_utf8`.
pub open spec fn parse_text(
    d: Seq<u8>,
    at: int,
    len: int,
    overflow: Seq<char>,
    truncated: Seq<char>,
    not_utf8: Seq<char>,
) -> Result<(Seq<char>, int), ErrorView> {
    if at + len > usize::MAX {
        malformed(overflow)
    } else if at + len > d.len() {
        malformed(truncated)
    } else if !valid_utf8(d.subrange(at, at + len)) {
        malformed(not_utf8)
    } else {
        Ok((decode_utf8(d.subrange(at, at + len)), at + len))
    }
}

/// The key of the entry at `at`, and where it ends.
pub open spec fn parse_key(d: Seq<u8>, at: int) -> Result<(Seq<char>, int), ErrorView> {
    if at + 4 > d.len() {
        malformed("metadata key length invalid"@)
    } else {
        parse_text(
            d,
            at + 4,
            u32_at(d, at) as int,
            "metadata key length overflow"@,
            "metadata key truncated"@,
            "metadata key is not valid UTF-8"@,
        )
    }
}

/// The value whose tag stands at `at`, and where it ends.
pub open spec fn parse_value(d: Seq<u8>, at: int) -> Result<(ValueView, int), ErrorView> {
    if at + 1 > d.len() {
        malformed("metadata value tag truncated"@)
    } else if d[at] == TAG_BOOL {
        if at + 2 > d.len() {
            malformed("metadata bool value truncated"@)
        } else if d[at + 1] == 0 {
            Ok((ValueView::Bool(false), at + 2))
        } else if d[at + 1] == 1 {
            Ok((ValueView::Bool(true), at + 2))
        } else {
            malformed("invalid metadata bool byte: "@ + decimal(d[at + 1] as nat) + ""@)
        }
    } else if d[at] == TAG_INT {
        if at + 9 > d.len() {
            malformed("metadata int value truncated"@)
        } else {
            Ok((ValueView::Int(i64_at(d, at + 1)), at + 9))
        }
    } else if d[at] == TAG_FLOAT {
        if at + 9 > d.len() {
            malformed("metadata float value truncated"@)
        } else {
            Ok((ValueView::Float(u64_at(d, at + 1)), at + 9))
        }
    } else if d[at] == TAG_STR {
        if at + 5 > d.len() {
            malformed("metadata string length invalid"@)
        } else {
            match parse_text(
                d,
                at + 5,
                u32_at(d, at + 1) as int,
                "metadata string length overflow"@,
                "metadata string value truncated"@,
                "metadata string is not valid UTF-8"@,
            ) {
                Err(e) => Err(e),
                Ok((s, end)) => Ok((ValueView::Str(s), end)),
            }
        }
    } else {
        malformed("unknown metadata value tag: "@ + decimal(d[at] as nat) + ""@)
    }
}

/// The entry at `at`, and where it ends.
pub open spec fn parse_pair(d: Seq<u8>, at: int) -> Result<
    ((Seq<char>, ValueView), int),
    ErrorView,
> {
    match parse_key(d, at) {
        Err(e) => Err(e),
        Ok((key, mid)) => match parse_value(d, mid) {
            Err(e) => Err(e),
            Ok((value, end)) => Ok(((key, value), end)),
        },
    }
}

/// The `count` entries from `at` on, added to `map`, and where they end. A key
/// comes once.
pub open spec fn parse_pairs(
    d: Seq<u8>,
    at: int,
    count: nat,
    map: Map<Seq<char>, ValueView>,
) -> Result<(Map<Seq<char>, ValueView>, int), ErrorView>
    decreases count,
{
    if count == 0 {
        Ok((map, at))
    } else {
        match parse_pair(d, at) {
            Err(e) => Err(e),
            Ok(((key, value), end)) => if map.dom().contains(key) {
                malformed("duplicate metadata key"@)
            } else {
                parse_pairs(d, end, (count - 1) as nat, map.insert(key, value))
            },
        }
    }
}

/// The metadata that the bytes encode, or what is wrong with them.
#[verifier::opaque]
pub open spec fn parse_metadata(d: Seq<u8>) -> Result<Map<Seq<char>, ValueView>, ErrorView> {
    if d.len() < 1 {
        malformed("metadata blob too short"@)
    } else if d[0] != METADATA_ENCODING_VERSION {
        malformed("unsupported metadata encoding version: "@ + decimal(d[0] as nat) + ""@)
    } else if d.len() < 5 {
        malformed("metadata blob missing entry count"@)
    } else {
        match parse_pairs(d, 5, u32_at(d, 1) as nat, Map::empty()) {
            Err(e) => Err(e),
            Ok((map, end)) => if end != d.len() {
                malformed("trailing bytes after metadata blob"@)
            } else {
                Ok(map)
            },
        }
    }
}

/// `String::from_utf8`: the text that the bytes encode, if they are UTF-8.
#[verifier::external_body]
pub(crate) fn text_of(bytes: Vec<u8>) -> (text: Option<String>)
    ensures
        text is Some <==> valid_utf8(bytes@),
        text matches Some(s) ==> s@ == decode_utf8(bytes@),
{
    String::from_utf8(bytes).ok()
}

fn put_len(out: &mut Vec<u8>, len: usize)
    ensures
        final(out)@ == old(out)@ + u32_bytes(len_field(len as nat)),
{
    put_u32(out, (len as u64 % 0x1_0000_0000) as u32);
}

fn put_text(out: &mut Vec<u8>, text: &String)
    ensures
        final(out)@ == old(out)@ + u32_bytes(len_field(encode_utf8(text@).len())) + encode_utf8(
            text@,
        ),
{
    let bytes = text.as_str().as_bytes();
    put_len(out, bytes.len());
    let ghost mid = out@;
    out.extend_from_slice(bytes);
    assert(out@ =~= mid + bytes@);
}

fn put_value(out: &mut Vec<u8>, value: &MetaValue)
    ensures
        final(out)@ == old(out)@ + value_bytes(value@),
{
    let ghost before = out@;
    match value {
        MetaValue::Bool(b) => {
            out.push(TAG_BOOL);
            out.push(if *b { 1 } else { 0 });
        },
        MetaValue::Int(i) => {
            out.push(TAG_INT);
            put_i64(out, *i);
        },
        MetaValue::Float(f) => {
            out.push(TAG_FLOAT);
            put_u64(out, *f);
        },
        MetaValue::Str(s) => {
            out.push(TAG_STR);
            put_text(out, s);
        },
    }
    assert(out@ =~= before + value_bytes(value@));
}

/// Reads `len` bytes of text at `at`.
fn read_text(
    bytes: &[u8],
    at: usize,
    len: u32,
    overflow: &str,
    truncated: &str,
    not_utf8: &str,
) -> (result: Result<(String, usize), QuiverError>)
    ensures
        match result {
            Ok((s, end)) => parse_text(bytes@, at as int, len as int, overflow@, truncated@, not_utf8@)
                == Ok::<(Seq<char>, int), ErrorView>((s@, end as int)),
            Err(e) => parse_text(bytes@, at as int, len as int, overflow@, truncated@, not_utf8@)
                == Err::<(Seq<char>, int), ErrorView>(e@),
        },
{
    let end: usize = match at.checked_add(len as usize) {
        Some(end) => end,
        None => return Err(invalid(overflow)),
    };
    if end > bytes.len() {
        return Err(invalid(truncated));
    }
    let mut copy: Vec<u8> = Vec::with_capacity(len as usize);
    copy.extend_from_slice(slice_subrange(bytes, at, end));
    assert(copy@ =~= bytes@.subrange(at as int, end as int));
    match text_of(copy) {
        Some(s) => Ok((s, end)),
        None => Err(invalid(not_utf8)),
    }
}

fn read_value(bytes: &[u8], at: usize) -> (result: Result<(MetaValue, usize), QuiverError>)
    requires
        at <= bytes.len(),
    ensures
        match result {
            Ok((v, end)) => parse_value(bytes@, at as int) == Ok::<(ValueView, int), ErrorView>(
                (v@, end as int),
            ),
            Err(e) => parse_value(bytes@, at as int) == Err::<(ValueView, int), ErrorView>(e@),
        },
{
    let left: usize = bytes.len() - at;
    if left < 1 {
        return Err(invalid("metadata value tag truncated"));
    }
    let tag: u8 = bytes[at];
    if tag == TAG_BOOL {
        if left < 2 {
            return Err(invalid("metadata bool value truncated"));
        }
        let byte: u8 = bytes[at + 1];
        if byte == 0 {
            Ok((MetaValue::Bool(false), at + 2))
        } else if byte == 1 {
            Ok((MetaValue::Bool(true), at + 2))
        } else {
            Err(QuiverError::InvalidFormat(
                phrase("invalid metadata bool byte: ", byte as u64, "")))
        }
    } else if tag == TAG_INT {
        if left < 9 {
            return Err(invalid("metadata int value truncated"));
        }
        Ok((MetaValue::Int(get_i64(bytes, at + 1)), at + 9))
    } else if tag == TAG_FLOAT {
        if left < 9 {
            return Err(invalid("metadata float value truncated"));
        }
        Ok((MetaValue::Float(get_u64(bytes, at + 1)), at + 9))
    } else if tag == TAG_STR {
        if left < 5 {
            return Err(invalid("metadata string length invalid"));
        }
        match read_text(
            bytes,
            at + 5,
            get_u32(bytes, at + 1),
            "metadata string length overflow",
            "metadata string value truncated",
            "metadata string is not valid UTF-8",
        ) {
            Ok((s, end)) => Ok((MetaValue::Str(s), end)),
            Err(e) => Err(e),
        }
    } else {
        Err(QuiverError::InvalidFormat(phrase("unknown metadata value tag: ", tag as u64, "")))
    }
}

fn read_pair(bytes: &[u8], at: usize) -> (result: Result<
    (String, MetaValue, usize),
    QuiverError,
>)
    requires
        at <= bytes.len(),
    ensures
        match result {
            Ok((k, v, end)) => at <= end <= bytes.len() && parse_pair(bytes@, at as int) == Ok::<
                ((Seq<char>, ValueView), int),
                ErrorView,
            >(((k@, v@), end as int)),
            Err(e) => parse_pair(bytes@, at as int) == Err::<
                ((Seq<char>, ValueView), int),
                ErrorView,
            >(e@),
        },
{
    if bytes.len() - at < 4 {
        return Err(invalid("metadata key length invalid"));
    }
    match read_text(
        bytes,
        at + 4,
        get_u32(bytes, at),
        "metadata key length overflow",
        "metadata key truncated",
        "metadata key is not valid UTF-8",
    ) {
        Err(e) => Err(e),
        Ok((key, mid)) => match read_value(bytes, mid) {
            Err(e) => Err(e),
            Ok((value, end)) => Ok((key, value, end)),
        },
    }
}

impl Metadata {
    /// The binary encoding.
    pub fn to_bytes(&self) -> (out: Vec<u8>)
        ensures
            out@ == metadata_bytes(self@),
    {
        let mut out: Vec<u8> = Vec::new();
        out.push(METADATA_ENCODING_VERSION);
        let pairs = self.iter();
        put_len(&mut out, pairs.len());
        let ghost all = self@;
        let ghost whole = metadata_bytes(all);
        assert(all.skip(0) =~= all);
        assert(out@ =~= seq![METADATA_ENCODING_VERSION] + u32_bytes(len_field(all.len())));
        for i in 0..pairs.len()
            invariant
                all == self@,
                whole == metadata_bytes(all),
                pairs@.len() == all.len(),
                forall|j: int|
                    0 <= j < all.len() ==> (#[trigger] pairs@[j]).0@ == all[j].0 && pairs@[j].1@
                        == all[j].1,
                out@ + pairs_bytes(all.skip(i as int)) == whole,
        {
            let ghost before = out@;
            let (key, value) = pairs[i];
            put_text(&mut out, key);
            put_value(&mut out, value);
            proof {
                assert(pairs@[i as int].0@ == all[i as int].0);
                let rest = all.skip(i as int);
                assert(rest[0] == all[i as int]);
                assert(rest.drop_first() =~= all.skip(i + 1));
                assert(out@ =~= before + pair_bytes(all[i as int]));
                assert(out@ + pairs_bytes(all.skip(i + 1)) =~= before + pairs_bytes(rest));
            }
        }
        assert(all.skip(all.len() as int) =~= Pairs::empty());
        assert(out@ =~= whole);
        out
    }

    /// Reads the binary encoding.
    pub fn from_bytes(bytes: &[u8]) -> (result: Result<Self, QuiverError>)
        ensures
            match result {
                Ok(md) => parse_metadata(bytes@) == Ok::<Map<Seq<char>, ValueView>, ErrorView>(
                    md.map(),
                ),
                Err(e) => parse_metadata(bytes@) == Err::<Map<Seq<char>, ValueView>, ErrorView>(e@),
            },
    {
        proof {
            reveal(parse_metadata);
        }
        if bytes.len() < 1 {
            return Err(invalid("metadata blob too short"));
        }
        if bytes[0] != METADATA_ENCODING_VERSION {
            return Err(QuiverError::InvalidFormat(
                phrase("unsupported metadata encoding version: ", bytes[0] as u64, "")));
        }
        if bytes.len() < 5 {
            return Err(invalid("metadata blob missing entry count"));
        }
        let entry_count: u32 = get_u32(bytes, 1);
        let mut md = Metadata::new();
        let mut at: usize = 5;
        assert(md.map() =~= Map::empty());
        let ghost goal = parse_pairs(bytes@, 5, entry_count as nat, Map::empty());
        for i in 0..entry_count
            invariant
                at <= bytes.len(),
                parse_pairs(bytes@, at as int, (entry_count - i) as nat, md.map()) == goal,
                goal matches Err(e) ==> parse_metadata(bytes@) == Err::<
                    Map<Seq<char>, ValueView>,
                    ErrorView,
                >(e),
        {
            match read_pair(bytes, at) {
                Err(e) => return Err(e),
                Ok((key, value, end)) => {
                    if md.insert(key, value).is_some() {
                        return Err(invalid("duplicate metadata key"));
                    }
                    at = end;
                },
            }
        }
        if at != bytes.len() {
            return Err(invalid("trailing bytes after metadata blob"));
        }
        Ok(md)
    }
}

proof fn text_read_back(d: Seq<u8>, at: int, s: Seq<char>, o: Seq<char>, t: Seq<char>, n: Seq<char>)
    requires
        0 <= at,
        d.len() <= usize::MAX,
        at + encode_utf8(s).len() <= d.len(),
        d.subrange(at, at + encode_utf8(s).len()) == encode_utf8(s),
    ensures
        parse_text(d, at, encode_utf8(s).len() as int, o, t, n) == Ok::<
            (Seq<char>, int),
            ErrorView,
        >((s, at + encode_utf8(s).len())),
{
    encode_utf8_valid_utf8(s);
    encode_utf8_decode_utf8(s);
}

proof fn value_read_back(d: Seq<u8>, mid: int, value: ValueView)
    requires
        0 <= mid,
        d.len() <= usize::MAX,
        mid + value_bytes(value).len() <= d.len(),
        d.subrange(mid, mid + value_bytes(value).len()) == value_bytes(value),
        value_fits(value),
    ensures
        parse_value(d, mid) == Ok::<(ValueView, int), ErrorView>(
            (value, mid + value_bytes(value).len()),
        ),
{
    let v = d.subrange(mid, mid + value_bytes(value).len());
    assert(v[0] == d[mid]);
    match value {
        ValueView::Bool(b) => {
            assert(v[1] == d[mid + 1]);
        },
        ValueView::Int(i) => {
            assert(d.subrange(mid + 1, mid + 9) =~= v.subrange(1, 9));
            assert(v.subrange(1, 9) =~= i64_bytes(i));
            i64_read_back(d, mid + 1, i);
        },
        ValueView::Float(f) => {
            assert(d.subrange(mid + 1, mid + 9) =~= v.subrange(1, 9));
            assert(v.subrange(1, 9) =~= u64_bytes(f));
            u64_read_back(d, mid + 1, f);
        },
        ValueView::Str(s) => {
            let t = encode_utf8(s);
            assert(d.subrange(mid + 1, mid + 5) =~= v.subrange(1, 5));
            assert(v.subrange(1, 5) =~= u32_bytes(t.len() as u32));
            u32_read_back(d, mid + 1, t.len() as u32);
            assert(d.subrange(mid + 5, mid + 5 + t.len()) =~= v.subrange(5, v.len() as int));
            assert(v.subrange(5, v.len() as int) =~= t);
            text_read_back(
                d,
                mid + 5,
                s,
                "metadata string length overflow"@,
                "metadata string value truncated"@,
                "metadata string is not valid UTF-8"@,
            );
        },
    }
}

proof fn pair_read_back(d: Seq<u8>, at: int, pair: (Seq<char>, ValueView))
    requires
        0 <= at,
        d.len() <= usize::MAX,
        at + pair_bytes(pair).len() <= d.len(),
        d.subrange(at, at + pair_bytes(pair).len()) == pair_bytes(pair),
        encode_utf8(pair.0).len() < 0x1_0000_0000,
        value_fits(pair.1),
    ensures
        parse_pair(d, at) == Ok::<((Seq<char>, ValueView), int), ErrorView>(
            (pair, at + pair_bytes(pair).len()),
        ),
{
    let key = encode_utf8(pair.0);
    let value = value_bytes(pair.1);
    let whole = d.subrange(at, at + pair_bytes(pair).len());
    let cut: int = 4 + key.len() as int;
    let mid = at + cut;
    assert(d.subrange(at, at + 4) =~= whole.subrange(0, 4));
    assert(whole.subrange(0, 4) =~= u32_bytes(key.len() as u32));
    u32_read_back(d, at, key.len() as u32);
    assert(d.subrange(at + 4, mid) =~= whole.subrange(4, cut));
    assert(whole.subrange(4, cut) =~= key);
    text_read_back(
        d,
        at + 4,
        pair.0,
        "metadata key length overflow"@,
        "metadata key truncated"@,
        "metadata key is not valid UTF-8"@,
    );
    assert(d.subrange(mid, mid + value.len()) =~= whole.subrange(cut, whole.len() as int));
    assert(whole.subrange(cut, whole.len() as int) =~= value);
    value_read_back(d, mid, pair.1);
}

proof fn pairs_read_back(d: Seq<u8>, at: int, done: Pairs, pairs: Pairs)
    requires
        0 <= at,
        d.len() <= usize::MAX,
        ascending(done + pairs),
        forall|i: int|
            0 <= i < pairs.len() ==> encode_utf8(#[trigger] pairs[i].0).len() < 0x1_0000_0000
                && value_fits(pairs[i].1),
        at + pairs_bytes(pairs).len() <= d.len(),
        d.subrange(at, at + pairs_bytes(pairs).len()) == pairs_bytes(pairs),
    ensures
        parse_pairs(d, at, pairs.len(), pairs_map(done)) == Ok::<
            (Map<Seq<char>, ValueView>, int),
            ErrorView,
        >((pairs_map(done + pairs), at + pairs_bytes(pairs).len())),
    decreases pairs.len(),
{
    if pairs.len() == 0 {
        assert(done + pairs =~= done);
    } else {
        let first = pairs[0];
        let rest = pairs.drop_first();
        let b = pair_bytes(first);
        let whole = d.subrange(at, at + pairs_bytes(pairs).len());
        assert(d.subrange(at, at + b.len()) =~= whole.subrange(0, b.len() as int));
        assert(whole.subrange(0, b.len() as int) =~= b);
        pair_read_back(d, at, first);
        let more = done.push(first);
        assert(more + rest =~= done + pairs);
        assert forall|i: int, j: int| 0 <= i < j < done.len() implies crate::metadata::key_before(
            #[trigger] done[i].0,
            #[trigger] done[j].0,
        ) by {
            assert(done[i] == (done + pairs)[i] && done[j] == (done + pairs)[j]);
        }
        pairs_map_holds(done);
        if pairs_map(done).dom().contains(first.0) {
            let i = choose|i: int| 0 <= i < done.len() && #[trigger] done[i].0 == first.0;
            assert((done + pairs)[i].0 == first.0);
            assert((done + pairs)[done.len() as int].0 == first.0);
            key_order_total(first.0, first.0);
            assert(false);
        }
        assert(more.drop_last() =~= done);
        assert(pairs_map(more) == pairs_map(done).insert(first.0, first.1));
        let end = at + b.len();
        assert(d.subrange(end, end + pairs_bytes(rest).len()) =~= whole.subrange(
            b.len() as int,
            whole.len() as int,
        ));
        assert(whole.subrange(b.len() as int, whole.len() as int) =~= pairs_bytes(rest));
        assert forall|i: int| 0 <= i < rest.len() implies encode_utf8(#[trigger] rest[i].0).len()
            < 0x1_0000_0000 && value_fits(rest[i].1) by {
            assert(rest[i] == pairs[i + 1]);
        }
        pairs_read_back(d, end, more, rest);
    }
}

proof fn pieces_of_encoding(d: Seq<u8>, first: Seq<u8>, count: Seq<u8>, body: Seq<u8>)
    requires
        d == first + count + body,
        first.len() == 1,
        count.len() == 4,
    ensures
        d.len() == 5 + body.len(),
        d[0] == first[0],
        d.subrange(1, 5) == count,
        d.subrange(5, 5 + body.len() as int) == body,
{
    assert(d.subrange(1, 5) =~= count);
    assert(d.subrange(5, 5 + body.len() as int) =~= body);
}

/// Metadata is read back from its own encoding, where every length fits its
/// field.
pub proof fn metadata_round_trip(pairs: Pairs)
    requires
        ascending(pairs),
        pairs_fit(pairs),
        metadata_bytes(pairs).len() <= usize::MAX,
    ensures
        parse_metadata(metadata_bytes(pairs)) == Ok::<Map<Seq<char>, ValueView>, ErrorView>(
            pairs_map(pairs),
        ),
{
    reveal(parse_metadata);
    let d = metadata_bytes(pairs);
    let body = pairs_bytes(pairs);
    pieces_of_encoding(
        d,
        seq![METADATA_ENCODING_VERSION],
        u32_bytes(len_field(pairs.len())),
        body,
    );
    u32_read_back(d, 1, pairs.len() as u32);
    assert(Pairs::empty() + pairs =~= pairs);
    assert(pairs_map(Pairs::empty()) =~= Map::empty());
    pairs_read_back(d, 5, Pairs::empty(), pairs);
}

proof fn parsed_pairs_are_listed(
    d: Seq<u8>,
    at: int,
    count: nat,
    map: Map<Seq<char>, ValueView>,
)
    requires
        is_listed(map),
    ensures
        parse_pairs(d, at, count, map) matches Ok((m, _)) ==> is_listed(m),
    decreases count,
{
    if count > 0 {
        if let Ok(((key, value), end)) = parse_pair(d, at) {
            insert_keeps_listed(map, key, value);
            parsed_pairs_are_listed(d, end, (count - 1) as nat, map.insert(key, value));
        }
    }
}

/// Whatever metadata is read has its keys in order.
pub proof fn parsed_metadata_is_listed(d: Seq<u8>)
    ensures
        parse_metadata(d) matches Ok(map) ==> is_listed(map),
{
    reveal(parse_metadata);
    assert(pairs_map(Pairs::empty()) =~= Map::empty());
    assert(ascending(Pairs::empty()));
    listing_of_pairs(Pairs::empty());
    parsed_pairs_are_listed(d, 5, u32_at(d, 1) as nat, Map::empty());
}

proof fn prefix_numbers(d: Seq<u8>, n: int, at: int)
    requires
        0 <= at,
        n <= d.len(),
    ensures
        at + 4 <= n ==> u32_at(d.take(n), at) == u32_at(d, at),
        at + 8 <= n ==> u64_at(d.take(n), at) == u64_at(d, at),
{
    reveal(u32_at);
    reveal(u64_at);
}

proof fn prefix_pairs(d: Seq<u8>, n: int, at: int, count: nat, map: Map<Seq<char>, ValueView>)
    requires
        0 <= at <= n <= d.len(),
        parse_pairs(d.take(n), at, count, map) is Ok,
    ensures
        parse_pairs(d, at, count, map) == parse_pairs(d.take(n), at, count, map),
    decreases count,
{
    if count > 0 {
        let t = d.take(n);
        prefix_numbers(d, n, at);
        let ((key, value), end) = parse_pair(t, at)->Ok_0;
        let mid = parse_key(t, at)->Ok_0.1;
        assert(t.subrange(at + 4, mid) =~= d.subrange(at + 4, mid));
        assert(parse_key(d, at) == parse_key(t, at));
        prefix_numbers(d, n, mid + 1);
        assert(t[mid] == d[mid]);
        if t[mid] == TAG_STR {
            assert(t.subrange(mid + 5, end) =~= d.subrange(mid + 5, end));
        }
        assert(parse_value(d, mid) == parse_value(t, mid));
        prefix_pairs(d, n, end, (count - 1) as nat, map.insert(key, value));
    }
}

/// No strict prefix of an encoding is itself an encoding: a cut-off blob is
/// refused.
pub proof fn truncated_metadata_is_refused(d: Seq<u8>, n: int)
    requires
        parse_metadata(d) is Ok,
        0 <= n < d.len(),
    ensures
        parse_metadata(d.take(n)) is Err,
{
    reveal(parse_metadata);
    let t = d.take(n);
    if parse_metadata(t) is Ok {
        prefix_numbers(d, n, 1);
        assert(t[0] == d[0]);
        prefix_pairs(d, n, 5, u32_at(d, 1) as nat, Map::empty());
        assert(false);
    }
}

/// The `count` entries from `at` on, in the order in which they stand.
pub open spec fn entries_from(d: Seq<u8>, at: int, count: nat) -> Pairs
    decreases count,
{
    if count == 0 {
        Seq::empty()
    } else {
        match parse_pair(d, at) {
            Err(_) => Seq::empty(),
            Ok((pair, end)) => seq![pair] + entries_from(d, end, (count - 1) as nat),
        }
    }
}

/// The entries of an encoding, in the order in which they stand.
pub open spec fn entries_of(d: Seq<u8>) -> Pairs {
    entries_from(d, 5, u32_at(d, 1) as nat)
}

/// A text is written back as it was read.
proof fn text_written_back(d: Seq<u8>, at: int, len: u32, o: Seq<char>, t: Seq<char>, n: Seq<char>)
    requires
        0 <= at,
        parse_text(d, at, len as int, o, t, n) is Ok,
    ensures
        ({
            let (s, end) = parse_text(d, at, len as int, o, t, n)->Ok_0;
            &&& end == at + len
            &&& end <= d.len()
            &&& encode_utf8(s) == d.subrange(at, end)
        }),
{
    decode_utf8_encode_utf8(d.subrange(at, at + len));
}

proof fn value_written_back(d: Seq<u8>, at: int)
    requires
        0 <= at,
        parse_value(d, at) is Ok,
    ensures
        ({
            let (value, end) = parse_value(d, at)->Ok_0;
            &&& at < end <= d.len()
            &&& value_bytes(value) == d.subrange(at, end)
            &&& value_fits(value)
        }),
{
    let (value, end) = parse_value(d, at)->Ok_0;
    if d[at] == TAG_BOOL {
        assert(value_bytes(value) =~= d.subrange(at, end));
    } else if d[at] == TAG_INT {
        i64_written_back(d, at + 1);
        assert(value_bytes(value) =~= d.subrange(at, end));
    } else if d[at] == TAG_FLOAT {
        u64_written_back(d, at + 1);
        assert(value_bytes(value) =~= d.subrange(at, end));
    } else {
        u32_written_back(d, at + 1);
        text_written_back(
            d,
            at + 5,
            u32_at(d, at + 1),
            "metadata string length overflow"@,
            "metadata string value truncated"@,
            "metadata string is not valid UTF-8"@,
        );
        assert(value_bytes(value) =~= d.subrange(at, end));
    }
}

proof fn pair_written_back(d: Seq<u8>, at: int)
    requires
        0 <= at,
        parse_pair(d, at) is Ok,
    ensures
        ({
            let (pair, end) = parse_pair(d, at)->Ok_0;
            &&& at < end <= d.len()
            &&& pair_bytes(pair) == d.subrange(at, end)
            &&& encode_utf8(pair.0).len() < 0x1_0000_0000
            &&& value_fits(pair.1)
        }),
{
    let (pair, end) = parse_pair(d, at)->Ok_0;
    let mid = parse_key(d, at)->Ok_0.1;
    u32_written_back(d, at);
    text_written_back(
        d,
        at + 4,
        u32_at(d, at),
        "metadata key length overflow"@,
        "metadata key truncated"@,
        "metadata key is not valid UTF-8"@,
    );
    value_written_back(d, mid);
    assert(pair_bytes(pair) =~= d.subrange(at, end));
}

/// A pair adds its own bytes wherever it is put.
proof fn placed_pair_bytes(pairs: Pairs, at: int, pair: (Seq<char>, ValueView))
    requires
        0 <= at <= pairs.len(),
    ensures
        pairs_bytes(pairs.insert(at, pair)).len() == pairs_bytes(pairs).len() + pair_bytes(
            pair,
        ).len(),
    decreases pairs.len(),
{
    let after = pairs.insert(at, pair);
    if at == 0 {
        assert(after[0] == pair);
        assert(after.drop_first() =~= pairs);
    } else {
        placed_pair_bytes(pairs.drop_first(), at - 1, pair);
        assert(after[0] == pairs[0]);
        assert(after.drop_first() =~= pairs.drop_first().insert(at - 1, pair));
    }
}

/// Whether the lengths in every pair fit their fields.
pub open spec fn texts_fit(pairs: Pairs) -> bool {
    forall|i: int|
        0 <= i < pairs.len() ==> encode_utf8(#[trigger] pairs[i].0).len() < 0x1_0000_0000
            && value_fits(pairs[i].1)
}

proof fn pairs_written_back(d: Seq<u8>, at: int, count: nat, done: Pairs)
    requires
        0 <= at <= d.len(),
        is_listed(pairs_map(done)),
        texts_fit(listing(pairs_map(done))),
        parse_pairs(d, at, count, pairs_map(done)) is Ok,
    ensures
        ({
            let (map, end) = parse_pairs(d, at, count, pairs_map(done))->Ok_0;
            let entries = entries_from(d, at, count);
            let before = listing(pairs_map(done));
            &&& at <= end <= d.len()
            &&& entries.len() == count
            &&& pairs_bytes(entries) == d.subrange(at, end)
            &&& map == pairs_map(done + entries)
            &&& is_listed(map)
            &&& texts_fit(listing(map))
            &&& listing(map).len() == before.len() + count
            &&& pairs_bytes(listing(map)).len() == pairs_bytes(before).len() + (end - at)
        }),
    decreases count,
{
    let entries = entries_from(d, at, count);
    if count == 0 {
        assert(done + entries =~= done);
        assert(pairs_bytes(entries) =~= d.subrange(at, at));
    } else {
        pair_written_back(d, at);
        let (pair, next) = parse_pair(d, at)->Ok_0;
        let map = pairs_map(done);
        let more = done.push(pair);
        assert(more.drop_last() =~= done);
        assert(pairs_map(more) == map.insert(pair.0, pair.1));
        let before = listing(map);
        let place = place_from(before, pair.0, 0);
        listing_of_insert(map, pair.0, pair.1);
        let now = listing(pairs_map(more));
        placed_pair_bytes(before, place, pair);
        assert forall|i: int| 0 <= i < now.len() implies encode_utf8(#[trigger] now[i].0).len()
            < 0x1_0000_0000 && value_fits(now[i].1) by {
            if i < place {
                assert(now[i] == before[i]);
            } else if i > place {
                assert(now[i] == before[i - 1]);
            }
        }
        pairs_written_back(d, next, (count - 1) as nat, more);
        let rest = entries_from(d, next, (count - 1) as nat);
        let end = parse_pairs(d, at, count, map)->Ok_0.1;
        assert(entries == seq![pair] + rest);
        assert(entries.drop_first() =~= rest);
        assert(done + entries =~= more + rest);
        assert(d.subrange(at, end) =~= d.subrange(at, next) + d.subrange(next, end));
    }
}

proof fn entries_read_back(d: Seq<u8>, at: int, pairs: Pairs)
    requires
        0 <= at,
        d.len() <= usize::MAX,
        texts_fit(pairs),
        at + pairs_bytes(pairs).len() <= d.len(),
        d.subrange(at, at + pairs_bytes(pairs).len()) == pairs_bytes(pairs),
    ensures
        entries_from(d, at, pairs.len()) == pairs,
    decreases pairs.len(),
{
    if pairs.len() == 0 {
        assert(entries_from(d, at, 0) =~= pairs);
    } else {
        let first = pairs[0];
        let rest = pairs.drop_first();
        let b = pair_bytes(first);
        let whole = d.subrange(at, at + pairs_bytes(pairs).len());
        assert(d.subrange(at, at + b.len()) =~= whole.subrange(0, b.len() as int));
        assert(whole.subrange(0, b.len() as int) =~= b);
        assert(encode_utf8(pairs[0].0).len() < 0x1_0000_0000);
        pair_read_back(d, at, first);
        let end = at + b.len();
        assert(d.subrange(end, end + pairs_bytes(rest).len()) =~= whole.subrange(
            b.len() as int,
            whole.len() as int,
        ));
        assert(whole.subrange(b.len() as int, whole.len() as int) =~= pairs_bytes(rest));
        assert forall|i: int| 0 <= i < rest.len() implies encode_utf8(#[trigger] rest[i].0).len()
            < 0x1_0000_0000 && value_fits(rest[i].1) by {
            assert(rest[i] == pairs[i + 1]);
        }
        entries_read_back(d, end, rest);
        assert(pairs =~= seq![first] + rest);
    }
}

/// Metadata that was read is encoded in as many bytes, from which it is read
/// again. No entry is dropped or merged: there are as many as the bytes count.
/// The encoding is the very bytes that were read if and only if the keys in them
/// ascend strictly.
pub proof fn parsed_metadata_is_written_back(d: Seq<u8>)
    requires
        d.len() <= usize::MAX,
        parse_metadata(d) is Ok,
    ensures
        ({
            let map = parse_metadata(d)->Ok_0;
            let pairs = listing(map);
            &&& d.len() >= 5
            &&& d[0] == METADATA_ENCODING_VERSION
            &&& ascending(pairs)
            &&& pairs_map(pairs) == map
            &&& map.dom().len() == u32_at(d, 1)
            &&& metadata_bytes(entries_of(d)) == d
            &&& pairs_map(entries_of(d)) == map
            &&& metadata_bytes(pairs).len() == d.len()
            &&& parse_metadata(metadata_bytes(pairs)) == Ok::<
                Map<Seq<char>, ValueView>,
                ErrorView,
            >(map)
            &&& metadata_bytes(pairs) == d <==> ascending(entries_of(d))
        }),
{
    reveal(parse_metadata);
    let none = Pairs::empty();
    let count = u32_at(d, 1) as nat;
    assert(pairs_map(none) =~= Map::empty());
    assert(ascending(none));
    listing_of_pairs(none);
    pairs_written_back(d, 5, count, none);
    let map = parse_metadata(d)->Ok_0;
    let pairs = listing(map);
    let entries = entries_of(d);
    assert(none + entries =~= entries);
    pairs_map_holds(pairs);
    u32_written_back(d, 1);
    assert(len_field(count) == count);
    assert(metadata_bytes(entries) =~= d);
    metadata_round_trip(pairs);
    if ascending(entries) {
        listing_is_canonical(pairs, entries);
    }
    if metadata_bytes(pairs) == d {
        assert(d.subrange(5, 5 + pairs_bytes(pairs).len() as int) =~= pairs_bytes(pairs));
        entries_read_back(d, 5, pairs);
    }
}

/// What a value's encoding says: 0 and then 0 or 1 for a boolean, 1 and eight bytes for
/// an integer, 2 and eight bytes for a floating-point number, and 3, the length in
/// four bytes and the text in UTF-8 for a string.
pub proof fn value_layout(v: ValueView)
    requires
        value_fits(v),
    ensures
        match v {
            ValueView::Bool(b) => value_bytes(v) == seq![0u8, if b { 1u8 } else { 0u8 }],
            ValueView::Int(i) => value_bytes(v).len() == 9 && value_bytes(v)[0] == 1 && i64_at(
                value_bytes(v),
                1,
            ) == i,
            ValueView::Float(f) => value_bytes(v).len() == 9 && value_bytes(v)[0] == 2 && u64_at(
                value_bytes(v),
                1,
            ) == f,
            ValueView::Str(s) => value_bytes(v)[0] == 3 && u32_at(value_bytes(v), 1) == encode_utf8(
                s,
            ).len() && value_bytes(v).skip(5) == encode_utf8(s),
        },
{
    let d = value_bytes(v);
    match v {
        ValueView::Bool(b) => {},
        ValueView::Int(i) => {
            assert(d.subrange(1, 9) =~= i64_bytes(i));
            i64_read_back(d, 1, i);
        },
        ValueView::Float(f) => {
            assert(d.subrange(1, 9) =~= u64_bytes(f));
            u64_read_back(d, 1, f);
        },
        ValueView::Str(s) => {
            let text = encode_utf8(s);
            assert(d.subrange(1, 5) =~= u32_bytes(text.len() as u32));
            u32_read_back(d, 1, text.len() as u32);
            assert(d.skip(5) =~= text);
        },
    }
}

/// What an encoding opens with: 1 for the version, then the number of entries in four
/// bytes. An entry opens with the length of its key in four bytes and the key.
pub proof fn encoding_layout(pairs: Pairs)
    requires
        pairs_fit(pairs),
    ensures
        metadata_bytes(pairs).len() >= 5,
        metadata_bytes(pairs)[0] == 1,
        u32_at(metadata_bytes(pairs), 1) == pairs.len(),
        pairs.len() == 0 ==> metadata_bytes(pairs).len() == 5,
        pairs.len() > 0 ==> {
            let key = encode_utf8(pairs[0].0);
            let d = metadata_bytes(pairs);
            &&& u32_at(d, 5) == key.len()
            &&& d.len() >= 9 + key.len() + value_bytes(pairs[0].1).len()
            &&& d.subrange(9, 9 + key.len() as int) == key
            &&& d.subrange(9 + key.len() as int, 9 + key.len() as int + value_bytes(pairs[0].1).len())
                == value_bytes(pairs[0].1)
        },
{
    let d = metadata_bytes(pairs);
    let body = pairs_bytes(pairs);
    let count = u32_bytes(len_field(pairs.len()));
    pieces_of_encoding(d, seq![METADATA_ENCODING_VERSION], count, body);
    u32_read_back(d, 1, pairs.len() as u32);
    if pairs.len() > 0 {
        let key = encode_utf8(pairs[0].0);
        let value = value_bytes(pairs[0].1);
        let rest = pairs_bytes(pairs.drop_first());
        assert(encode_utf8(pairs[0].0).len() < 0x1_0000_0000);
        pieces_of_entry(body, u32_bytes(len_field(key.len())), key, value, rest);
        let n = key.len() as int;
        let m = value.len() as int;
        assert(d.subrange(5, 9) =~= d.subrange(5, 5 + body.len() as int).subrange(0, 4));
        u32_read_back(d, 5, key.len() as u32);
        assert(d.subrange(9, 9 + n) =~= d.subrange(5, 5 + body.len() as int).subrange(4, 4 + n));
        assert(d.subrange(9 + n, 9 + n + m) =~= d.subrange(5, 5 + body.len() as int).subrange(
            4 + n,
            4 + n + m,
        ));
    }
}

proof fn pieces_of_entry(
    body: Seq<u8>,
    len: Seq<u8>,
    key: Seq<u8>,
    value: Seq<u8>,
    rest: Seq<u8>,
)
    requires
        body == len + key + value + rest,
        len.len() == 4,
    ensures
        body.len() == 4 + key.len() + value.len() + rest.len(),
        body.subrange(0, 4) == len,
        body.subrange(4, 4 + key.len() as int) == key,
        body.subrange(4 + key.len() as int, 4 + key.len() as int + value.len()) == value,
{
    assert(body.subrange(0, 4) =~= len);
    assert(body.subrange(4, 4 + key.len() as int) =~= key);
    assert(body.subrange(4 + key.len() as int, 4 + key.len() as int + value.len()) =~= value);
}

} // verus!

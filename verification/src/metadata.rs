//! Key-value metadata of vectors, and predicates over it.
use vstd::prelude::*;
use vstd::string::*;
use vstd::utf8::*;

use crate::distance::{double_equal, equal64};

verus! {

/// A scalar attached to a vector.
#[derive(Debug)]
pub enum MetaValue {
    /// A boolean value.
    Bool(bool),
    /// A 64-bit signed integer.
    Int(i64),
    /// A 64-bit floating-point number, by its bit pattern.
    Float(u64),
    /// A UTF-8 string.
    Str(String),
}

/// A [`MetaValue`] with its text as a sequence of characters.
pub enum ValueView {
    Bool(bool),
    Int(i64),
    Float(u64),
    Str(Seq<char>),
}

impl View for MetaValue {
    type V = ValueView;

    open spec fn view(&self) -> ValueView {
        match *self {
            MetaValue::Bool(b) => ValueView::Bool(b),
            MetaValue::Int(i) => ValueView::Int(i),
            MetaValue::Float(f) => ValueView::Float(f),
            MetaValue::Str(s) => ValueView::Str(s@),
        }
    }
}

/// Whether two values are equal. Values of different types never are, and
/// numbers with a fraction compare as IEEE 754 has it.
pub open spec fn values_equal(a: ValueView, b: ValueView) -> bool {
    match (a, b) {
        (ValueView::Bool(x), ValueView::Bool(y)) => x == y,
        (ValueView::Int(x), ValueView::Int(y)) => x == y,
        (ValueView::Float(x), ValueView::Float(y)) => equal64(x, y),
        (ValueView::Str(x), ValueView::Str(y)) => x == y,
        _ => false,
    }
}

impl PartialEq for MetaValue {
    fn eq(&self, other: &Self) -> (r: bool) {
        match (self, other) {
            (MetaValue::Bool(x), MetaValue::Bool(y)) => *x == *y,
            (MetaValue::Int(x), MetaValue::Int(y)) => *x == *y,
            (MetaValue::Float(x), MetaValue::Float(y)) => double_equal(*x, *y),
            (MetaValue::Str(x), MetaValue::Str(y)) => *x == *y,
            _ => false,
        }
    }
}

impl vstd::std_specs::cmp::PartialEqSpecImpl for MetaValue {
    open spec fn obeys_eq_spec() -> bool {
        true
    }

    open spec fn eq_spec(&self, other: &Self) -> bool {
        values_equal(self@, other@)
    }
}

impl Clone for MetaValue {
    fn clone(&self) -> (copy: Self)
        ensures
            copy@ == self@,
    {
        match self {
            MetaValue::Bool(b) => MetaValue::Bool(*b),
            MetaValue::Int(i) => MetaValue::Int(*i),
            MetaValue::Float(f) => MetaValue::Float(*f),
            MetaValue::Str(s) => MetaValue::Str(s.clone()),
        }
    }
}

impl From<bool> for MetaValue {
    fn from(value: bool) -> (v: Self) {
        MetaValue::Bool(value)
    }
}

impl vstd::std_specs::convert::FromSpecImpl<bool> for MetaValue {
    open spec fn obeys_from_spec() -> bool {
        true
    }

    open spec fn from_spec(value: bool) -> Self {
        MetaValue::Bool(value)
    }
}

impl From<i64> for MetaValue {
    fn from(value: i64) -> (v: Self) {
        MetaValue::Int(value)
    }
}

impl vstd::std_specs::convert::FromSpecImpl<i64> for MetaValue {
    open spec fn obeys_from_spec() -> bool {
        true
    }

    open spec fn from_spec(value: i64) -> Self {
        MetaValue::Int(value)
    }
}

impl From<String> for MetaValue {
    fn from(value: String) -> (v: Self) {
        MetaValue::Str(value)
    }
}

impl vstd::std_specs::convert::FromSpecImpl<String> for MetaValue {
    open spec fn obeys_from_spec() -> bool {
        true
    }

    open spec fn from_spec(value: String) -> Self {
        MetaValue::Str(value)
    }
}

impl From<&str> for MetaValue {
    fn from(value: &str) -> (v: Self)
        ensures
            v@ == ValueView::Str(value@),
    {
        MetaValue::Str(value.to_owned())
    }
}

impl vstd::std_specs::convert::FromSpecImpl<&str> for MetaValue {
    open spec fn obeys_from_spec() -> bool {
        false
    }

    open spec fn from_spec(value: &str) -> Self {
        arbitrary()
    }
}

/// Key-value pairs, as [`Metadata`] lists them.
pub type Pairs = Seq<(Seq<char>, ValueView)>;

/// Whether `a` stands before `b` in the order of their bytes.
pub open spec fn bytes_before(a: Seq<u8>, b: Seq<u8>) -> bool
    decreases a.len(),
{
    if b.len() == 0 {
        false
    } else if a.len() == 0 {
        true
    } else {
        a[0] < b[0] || (a[0] == b[0] && bytes_before(a.drop_first(), b.drop_first()))
    }
}

/// Whether the key `a` stands before the key `b`: keys are ordered by their
/// UTF-8 bytes.
pub open spec fn key_before(a: Seq<char>, b: Seq<char>) -> bool {
    bytes_before(encode_utf8(a), encode_utf8(b))
}

/// Whether the keys ascend strictly.
pub open spec fn ascending(pairs: Pairs) -> bool {
    forall|i: int, j: int| 0 <= i < j < pairs.len() ==> key_before(#[trigger] pairs[i].0, #[trigger] pairs[j].0)
}

/// The map that a list of pairs spells; a later pair overrides an earlier one.
pub open spec fn pairs_map(pairs: Pairs) -> Map<Seq<char>, ValueView>
    decreases pairs.len(),
{
    if pairs.len() == 0 {
        Map::empty()
    } else {
        pairs_map(pairs.drop_last()).insert(pairs.last().0, pairs.last().1)
    }
}

proof fn bytes_before_total(a: Seq<u8>, b: Seq<u8>)
    ensures
        !(bytes_before(a, b) && bytes_before(b, a)),
        a != b ==> bytes_before(a, b) || bytes_before(b, a),
        !bytes_before(a, a),
    decreases a.len(),
{
    if a.len() > 0 && b.len() > 0 {
        bytes_before_total(a.drop_first(), b.drop_first());
        if a[0] == b[0] && a.drop_first() == b.drop_first() {
            assert(a =~= seq![a[0]] + a.drop_first());
            assert(b =~= seq![b[0]] + b.drop_first());
        }
        bytes_before_total(a.drop_first(), a.drop_first());
    } else if a.len() == 0 && b.len() == 0 {
        assert(a =~= b);
    } else if a.len() > 0 {
        bytes_before_total(a.drop_first(), a.drop_first());
    }
}

proof fn bytes_before_chain(a: Seq<u8>, b: Seq<u8>, c: Seq<u8>)
    requires
        bytes_before(a, b),
        bytes_before(b, c),
    ensures
        bytes_before(a, c),
    decreases a.len(),
{
    if a.len() > 0 && a[0] == b[0] && b[0] == c[0] {
        bytes_before_chain(a.drop_first(), b.drop_first(), c.drop_first());
    }
}

/// Any two different keys are ordered, one way only.
pub proof fn key_order_total(a: Seq<char>, b: Seq<char>)
    ensures
        !(key_before(a, b) && key_before(b, a)),
        a != b ==> key_before(a, b) || key_before(b, a),
        !key_before(a, a),
{
    bytes_before_total(encode_utf8(a), encode_utf8(b));
    bytes_before_total(encode_utf8(a), encode_utf8(a));
    encode_utf8_decode_utf8(a);
    encode_utf8_decode_utf8(b);
}

/// The order of keys is transitive.
pub proof fn key_order_chain(a: Seq<char>, b: Seq<char>, c: Seq<char>)
    requires
        key_before(a, b),
        key_before(b, c),
    ensures
        key_before(a, c),
{
    bytes_before_chain(encode_utf8(a), encode_utf8(b), encode_utf8(c));
}

proof fn ascending_keys_differ(pairs: Pairs, i: int, j: int)
    requires
        ascending(pairs),
        0 <= i < pairs.len(),
        0 <= j < pairs.len(),
        i != j,
    ensures
        pairs[i].0 != pairs[j].0,
{
    key_order_total(pairs[i].0, pairs[j].0);
    key_order_total(pairs[j].0, pairs[i].0);
}

/// What the map of an ascending list holds: each of its pairs, and no other key.
pub proof fn pairs_map_holds(pairs: Pairs)
    requires
        ascending(pairs),
    ensures
        forall|i: int|
            0 <= i < pairs.len() ==> #[trigger] pairs_map(pairs).dom().contains(pairs[i].0)
                && pairs_map(pairs)[pairs[i].0] == pairs[i].1,
        forall|k: Seq<char>| #[trigger]
            pairs_map(pairs).dom().contains(k) ==> exists|i: int|
                0 <= i < pairs.len() && #[trigger] pairs[i].0 == k,
        pairs_map(pairs).dom().finite(),
        pairs_map(pairs).dom().len() == pairs.len(),
    decreases pairs.len(),
{
    if pairs.len() > 0 {
        let fewer = pairs.drop_last();
        let last = pairs.last();
        pairs_map_holds(fewer);
        assert forall|i: int| 0 <= i < pairs.len() implies #[trigger] pairs_map(
            pairs,
        ).dom().contains(pairs[i].0) && pairs_map(pairs)[pairs[i].0] == pairs[i].1 by {
            if i < fewer.len() {
                assert(fewer[i] == pairs[i]);
                assert(pairs_map(fewer).dom().contains(fewer[i].0));
                ascending_keys_differ(pairs, i, pairs.len() - 1);
            }
        }
        assert forall|k: Seq<char>| #[trigger] pairs_map(pairs).dom().contains(k) implies exists|
            i: int,
        |
            0 <= i < pairs.len() && #[trigger] pairs[i].0 == k by {
            if k == last.0 {
                assert(pairs[pairs.len() - 1].0 == k);
            } else {
                assert(pairs_map(fewer).dom().contains(k));
                let i = choose|i: int| 0 <= i < fewer.len() && #[trigger] fewer[i].0 == k;
                assert(pairs[i].0 == k);
            }
        }
        if pairs_map(fewer).dom().contains(last.0) {
            let i = choose|i: int| 0 <= i < fewer.len() && #[trigger] fewer[i].0 == last.0;
            ascending_keys_differ(pairs, i, pairs.len() - 1);
            assert(pairs[i].0 == fewer[i].0);
        }
    }
}

/// The ascending list that spells a map.
pub open spec fn listing(map: Map<Seq<char>, ValueView>) -> Pairs {
    choose|pairs: Pairs| ascending(pairs) && pairs_map(pairs) == map
}

/// An ascending list is the listing of its map.
pub proof fn listing_of_pairs(pairs: Pairs)
    requires
        ascending(pairs),
    ensures
        listing(pairs_map(pairs)) == pairs,
{
    listing_is_canonical(listing(pairs_map(pairs)), pairs);
}

/// Two ascending lists that spell the same map are the same list: metadata has
/// one listing, and so one encoding.
pub proof fn listing_is_canonical(a: Pairs, b: Pairs)
    requires
        ascending(a),
        ascending(b),
        pairs_map(a) == pairs_map(b),
    ensures
        a == b,
    decreases a.len(),
{
    pairs_map_holds(a);
    pairs_map_holds(b);
    if a.len() > 0 {
        let la = a.last();
        let lb = b.last();
        if la.0 != lb.0 {
            assert(pairs_map(a).dom().contains(a[a.len() - 1].0));
            assert(pairs_map(b).dom().contains(b[b.len() - 1].0));
            let i = choose|i: int| 0 <= i < b.len() && #[trigger] b[i].0 == la.0;
            let j = choose|j: int| 0 <= j < a.len() && #[trigger] a[j].0 == lb.0;
            assert(key_before(b[i].0, b[b.len() - 1].0));
            assert(key_before(a[j].0, a[a.len() - 1].0));
            key_order_total(la.0, lb.0);
            assert(false);
        }
        assert(pairs_map(a).dom().contains(a[a.len() - 1].0));
        assert(pairs_map(b).dom().contains(b[b.len() - 1].0));
        assert(la == lb);
        let fa = a.drop_last();
        let fb = b.drop_last();
        pairs_map_holds(fa);
        pairs_map_holds(fb);
        assert(!pairs_map(fa).dom().contains(la.0)) by {
            if pairs_map(fa).dom().contains(la.0) {
                let i = choose|i: int| 0 <= i < fa.len() && #[trigger] fa[i].0 == la.0;
                ascending_keys_differ(a, i, a.len() - 1);
            }
        }
        assert(!pairs_map(fb).dom().contains(la.0)) by {
            if pairs_map(fb).dom().contains(la.0) {
                let i = choose|i: int| 0 <= i < fb.len() && #[trigger] fb[i].0 == lb.0;
                ascending_keys_differ(b, i, b.len() - 1);
            }
        }
        assert(pairs_map(fa) =~= pairs_map(a).remove(la.0));
        assert(pairs_map(fb) =~= pairs_map(b).remove(la.0));
        listing_is_canonical(fa, fb);
        assert(a =~= fa.push(la));
        assert(b =~= fb.push(lb));
    } else {
        assert(a =~= b);
    }
}

/// What a list spells once the value of one of its keys is replaced.
pub proof fn replaced_pair(before: Pairs, after: Pairs, at: int, pair: (Seq<char>, ValueView))
    requires
        ascending(before),
        ascending(after),
        0 <= at < before.len(),
        before[at].0 == pair.0,
        after == before.update(at, pair),
    ensures
        pairs_map(after) == pairs_map(before).insert(pair.0, pair.1),
{
    pairs_map_holds(before);
    pairs_map_holds(after);
    let want = pairs_map(before).insert(pair.0, pair.1);
    assert forall|k: Seq<char>| pairs_map(after).dom().contains(k)
        <==> #[trigger] want.dom().contains(k) by {
        if pairs_map(after).dom().contains(k) {
            let i = choose|i: int| 0 <= i < after.len() && #[trigger] after[i].0 == k;
            assert(before[i].0 == k);
            assert(pairs_map(before).dom().contains(before[i].0));
        }
        if want.dom().contains(k) && k != pair.0 {
            let i = choose|i: int| 0 <= i < before.len() && #[trigger] before[i].0 == k;
            assert(after[i].0 == k);
            assert(pairs_map(after).dom().contains(after[i].0));
        }
        if k == pair.0 {
            assert(after[at].0 == k);
            assert(pairs_map(after).dom().contains(after[at].0));
        }
    }
    assert forall|k: Seq<char>| #[trigger] want.dom().contains(k) implies pairs_map(after)[k]
        == want[k] by {
        assert(pairs_map(after).dom().contains(k));
        let i = choose|i: int| 0 <= i < after.len() && #[trigger] after[i].0 == k;
        assert(pairs_map(after).dom().contains(after[i].0));
        assert(pairs_map(before).dom().contains(before[i].0));
        if i != at {
            ascending_keys_differ(before, i, at);
        }
    }
    assert(pairs_map(after).dom() =~= want.dom());
    assert(pairs_map(after) =~= want);
}

/// What a list spells once a pair with a new key is put where it belongs.
pub proof fn placed_pair(before: Pairs, at: int, pair: (Seq<char>, ValueView))
    requires
        ascending(before),
        0 <= at <= before.len(),
        forall|i: int| 0 <= i < at ==> key_before(#[trigger] before[i].0, pair.0),
        at < before.len() ==> !key_before(before[at].0, pair.0) && before[at].0 != pair.0,
    ensures
        ascending(before.insert(at, pair)),
        !pairs_map(before).dom().contains(pair.0),
        pairs_map(before.insert(at, pair)) == pairs_map(before).insert(pair.0, pair.1),
{
    let after = before.insert(at, pair);
    assert forall|j: int| at <= j < before.len() implies key_before(
        pair.0,
        #[trigger] before[j].0,
    ) by {
        key_order_total(pair.0, before[at].0);
        if j > at {
            key_order_chain(pair.0, before[at].0, before[j].0);
        }
    }
    assert forall|i: int, j: int| 0 <= i < j < after.len() implies key_before(
        #[trigger] after[i].0,
        #[trigger] after[j].0,
    ) by {
        let bi = if i < at { i } else { i - 1 };
        let bj = if j < at { j } else { j - 1 };
        if i != at {
            assert(after[i] == before[bi]);
        }
        if j != at {
            assert(after[j] == before[bj]);
        }
    }
    pairs_map_holds(before);
    pairs_map_holds(after);
    if pairs_map(before).dom().contains(pair.0) {
        let i = choose|i: int| 0 <= i < before.len() && #[trigger] before[i].0 == pair.0;
        key_order_total(pair.0, pair.0);
        assert(false);
    }
    let want = pairs_map(before).insert(pair.0, pair.1);
    assert forall|k: Seq<char>| pairs_map(after).dom().contains(k)
        <==> #[trigger] want.dom().contains(k) by {
        if pairs_map(after).dom().contains(k) {
            let i = choose|i: int| 0 <= i < after.len() && #[trigger] after[i].0 == k;
            if i < at {
                assert(before[i].0 == k);
                assert(pairs_map(before).dom().contains(before[i].0));
            } else if i > at {
                assert(before[i - 1].0 == k);
                assert(pairs_map(before).dom().contains(before[i - 1].0));
            }
        }
        if k == pair.0 {
            assert(after[at].0 == k);
            assert(pairs_map(after).dom().contains(after[at].0));
        } else if want.dom().contains(k) {
            let i = choose|i: int| 0 <= i < before.len() && #[trigger] before[i].0 == k;
            let j = if i < at { i } else { i + 1 };
            assert(after[j].0 == k);
            assert(pairs_map(after).dom().contains(after[j].0));
        }
    }
    assert forall|k: Seq<char>| #[trigger] want.dom().contains(k) implies pairs_map(after)[k]
        == want[k] by {
        assert(pairs_map(after).dom().contains(k));
        let i = choose|i: int| 0 <= i < after.len() && #[trigger] after[i].0 == k;
        assert(pairs_map(after).dom().contains(after[i].0));
        if i < at {
            assert(pairs_map(before).dom().contains(before[i].0));
        } else if i > at {
            assert(pairs_map(before).dom().contains(before[i - 1].0));
        }
    }
    assert(pairs_map(after).dom() =~= want.dom());
    assert(pairs_map(after) =~= want);
}

/// Where the key `k` belongs in a list, from `i` on.
pub open spec fn place_from(pairs: Pairs, k: Seq<char>, i: int) -> int
    decreases pairs.len() - i,
{
    if i >= pairs.len() || !key_before(pairs[i].0, k) {
        i
    } else {
        place_from(pairs, k, i + 1)
    }
}

proof fn place_is_right(pairs: Pairs, k: Seq<char>, i: int)
    requires
        0 <= i <= pairs.len(),
        forall|j: int| 0 <= j < i ==> key_before(#[trigger] pairs[j].0, k),
    ensures
        i <= place_from(pairs, k, i) <= pairs.len(),
        forall|j: int| 0 <= j < place_from(pairs, k, i) ==> key_before(#[trigger] pairs[j].0, k),
        place_from(pairs, k, i) < pairs.len() ==> !key_before(
            pairs[place_from(pairs, k, i)].0,
            k,
        ),
    decreases pairs.len() - i,
{
    if i < pairs.len() && key_before(pairs[i].0, k) {
        place_is_right(pairs, k, i + 1);
    }
}

/// Whether a map has an ascending listing, as the map of every metadata has.
pub open spec fn is_listed(map: Map<Seq<char>, ValueView>) -> bool {
    ascending(listing(map)) && pairs_map(listing(map)) == map
}

/// A map that has a listing still has one with one more pair.
pub proof fn insert_keeps_listed(map: Map<Seq<char>, ValueView>, k: Seq<char>, v: ValueView)
    requires
        is_listed(map),
    ensures
        is_listed(map.insert(k, v)),
{
    let before = listing(map);
    let at = place_from(before, k, 0);
    place_is_right(before, k, 0);
    let after = if at < before.len() && before[at].0 == k {
        before.update(at, (k, v))
    } else {
        before.insert(at, (k, v))
    };
    if at < before.len() && before[at].0 == k {
        assert forall|i: int, j: int| 0 <= i < j < after.len() implies key_before(
            #[trigger] after[i].0,
            #[trigger] after[j].0,
        ) by {
            assert(after[i].0 == before[i].0 && after[j].0 == before[j].0);
        }
        replaced_pair(before, after, at, (k, v));
    } else {
        placed_pair(before, at, (k, v));
    }
    assert(ascending(after) && pairs_map(after) == map.insert(k, v));
    listing_of_pairs(after);
}

/// The listing of a map with one more key has its pair in one place.
pub proof fn listing_of_insert(map: Map<Seq<char>, ValueView>, k: Seq<char>, v: ValueView)
    requires
        is_listed(map),
        !map.dom().contains(k),
    ensures
        is_listed(map.insert(k, v)),
        0 <= place_from(listing(map), k, 0) <= listing(map).len(),
        listing(map.insert(k, v)) == listing(map).insert(place_from(listing(map), k, 0), (k, v)),
{
    let before = listing(map);
    let at = place_from(before, k, 0);
    place_is_right(before, k, 0);
    pairs_map_holds(before);
    if at < before.len() {
        assert(pairs_map(before).dom().contains(before[at].0));
    }
    placed_pair(before, at, (k, v));
    listing_of_pairs(before.insert(at, (k, v)));
}

/// Whether the bytes of `a` stand before those of `b`.
fn precedes(a: &[u8], b: &[u8]) -> (r: bool)
    ensures
        r == bytes_before(a@, b@),
{
    let mut i: usize = 0;
    assert(a@.skip(0) =~= a@);
    assert(b@.skip(0) =~= b@);
    while i < a.len() && i < b.len()
        invariant
            i <= a.len(),
            i <= b.len(),
            bytes_before(a@, b@) == bytes_before(a@.skip(i as int), b@.skip(i as int)),
        decreases a.len() - i,
    {
        if a[i] != b[i] {
            return a[i] < b[i];
        }
        assert(a@.skip(i as int).drop_first() =~= a@.skip(i + 1));
        assert(b@.skip(i as int).drop_first() =~= b@.skip(i + 1));
        i = i + 1;
    }
    i == a.len() && i < b.len()
}

/// The views of a list of pairs.
pub closed spec fn listed(pairs: Seq<(String, MetaValue)>) -> Pairs {
    Seq::new(pairs.len(), |i: int| (pairs[i].0@, pairs[i].1@))
}

/// Key-value metadata attached to a vector, at most one value for a key.
///
/// The pairs are kept in the order of their keys, so listing and encoding are
/// deterministic. The view is that list.
#[derive(Debug)]
pub struct Metadata {
    pairs: Vec<(String, MetaValue)>,
}

impl View for Metadata {
    type V = Pairs;

    closed spec fn view(&self) -> Pairs {
        listed(self.pairs@)
    }
}

impl Metadata {
    /// The pairs are listed in the order of their keys.
    #[verifier::type_invariant]
    pub open spec fn inv(self) -> bool {
        ascending(self@)
    }

    /// The values by their keys.
    pub open spec fn map(&self) -> Map<Seq<char>, ValueView> {
        pairs_map(self@)
    }

    /// Empty metadata.
    pub fn new() -> (md: Self)
        ensures
            md@ == Pairs::empty(),
    {
        let md = Self { pairs: Vec::new() };
        assert(md@ =~= Pairs::empty());
        md
    }

    /// Where `key` is, or where it would go.
    fn position(&self, key: &str) -> (at: usize)
        ensures
            at <= self@.len(),
            self@.len() == self.pairs@.len(),
            forall|i: int| 0 <= i < at ==> key_before(#[trigger] self@[i].0, key@),
            at < self@.len() ==> !key_before(self@[at as int].0, key@),
    {
        let mut at: usize = 0;
        while at < self.pairs.len() && precedes(
            self.pairs[at].0.as_str().as_bytes(),
            key.as_bytes(),
        )
            invariant
                at <= self.pairs@.len(),
                forall|i: int| 0 <= i < at ==> key_before(#[trigger] self@[i].0, key@),
            decreases self.pairs@.len() - at,
        {
            assert(self@[at as int].0 == self.pairs@[at as int].0@);
            at = at + 1;
        }
        at
    }

    /// Sets the value of a key, and returns the value it had before, if any.
    pub fn insert(&mut self, key: String, value: MetaValue) -> (previous: Option<MetaValue>)
        ensures
            final(self).map() == old(self).map().insert(key@, value@),
            match previous {
                Some(v) => old(self).map().dom().contains(key@) && v@ == old(self).map()[key@],
                None => !old(self).map().dom().contains(key@),
            },
    {
        proof {
            use_type_invariant(&*self);
            pairs_map_holds(self@);
        }
        let at: usize = self.position(key.as_str());
        let ghost before = self@;
        let mut pairs: Vec<(String, MetaValue)> = Vec::new();
        core::mem::swap(&mut pairs, &mut self.pairs);
        assert(listed(pairs@) == before);
        let ghost new_pair = (key@, value@);
        if at < pairs.len() && pairs[at].0 == key {
            pairs.push((key, value));
            let old_pair = pairs.swap_remove(at);
            proof {
                assert(before[at as int].0 == new_pair.0);
                let after = listed(pairs@);
                assert(after =~= before.update(at as int, new_pair));
                assert forall|i: int, j: int| 0 <= i < j < after.len() implies key_before(
                    #[trigger] after[i].0,
                    #[trigger] after[j].0,
                ) by {
                    assert(after[i].0 == before[i].0 && after[j].0 == before[j].0);
                }
                pairs_map_holds(after);
                replaced_pair(before, after, at as int, new_pair);
            }
            self.pairs = pairs;
            Some(old_pair.1)
        } else {
            pairs.insert(at, (key, value));
            proof {
                let after = listed(pairs@);
                assert(after =~= before.insert(at as int, new_pair));
                placed_pair(before, at as int, new_pair);
            }
            self.pairs = pairs;
            None
        }
    }

    /// The value of a key, if it has one.
    pub fn get(&self, key: &str) -> (value: Option<&MetaValue>)
        ensures
            match value {
                Some(v) => self.map().dom().contains(key@) && v@ == self.map()[key@],
                None => !self.map().dom().contains(key@),
            },
    {
        proof {
            use_type_invariant(self);
            pairs_map_holds(self@);
        }
        let at: usize = self.position(key);
        if at < self.pairs.len() && self.pairs[at].0.as_str().as_bytes().len() == key.as_bytes().len()
            && !precedes(key.as_bytes(), self.pairs[at].0.as_str().as_bytes()) {
            proof {
                assert(self@[at as int].0 == self.pairs@[at as int].0@);
                key_order_total(self@[at as int].0, key@);
                assert(self.map().dom().contains(self@[at as int].0));
            }
            Some(&self.pairs[at].1)
        } else {
            proof {
                if self.map().dom().contains(key@) {
                    let i = choose|i: int| 0 <= i < self@.len() && #[trigger] self@[i].0 == key@;
                    key_order_total(key@, key@);
                    if i > at {
                        assert(key_before(self@[at as int].0, self@[i].0));
                    }
                    assert(i == at);
                    assert(self@[at as int].0 == self.pairs@[at as int].0@);
                    assert(false);
                }
            }
            None
        }
    }

    /// Whether the key has a value.
    pub fn contains_key(&self, key: &str) -> (r: bool)
        ensures
            r == self.map().dom().contains(key@),
    {
        self.get(key).is_some()
    }

    /// Number of key-value pairs.
    pub fn len(&self) -> (n: usize)
        ensures
            n == self@.len(),
            n == self.map().dom().len(),
    {
        proof {
            use_type_invariant(self);
            pairs_map_holds(self@);
        }
        self.pairs.len()
    }

    /// Whether there is no pair.
    pub fn is_empty(&self) -> (r: bool)
        ensures
            r == (self@.len() == 0),
    {
        self.pairs.len() == 0
    }

    /// The pairs in the order of their keys.
    pub fn iter(&self) -> (pairs: Vec<(&String, &MetaValue)>)
        ensures
            pairs@.len() == self@.len(),
            forall|i: int|
                0 <= i < self@.len() ==> (#[trigger] pairs@[i]).0@ == self@[i].0 && pairs@[i].1@
                    == self@[i].1,
    {
        let mut pairs: Vec<(&String, &MetaValue)> = Vec::with_capacity(self.pairs.len());
        for i in 0..self.pairs.len()
            invariant
                pairs@.len() == i,
                forall|j: int|
                    0 <= j < i ==> (#[trigger] pairs@[j]).0@ == self@[j].0 && pairs@[j].1@
                        == self@[j].1,
        {
            pairs.push((&self.pairs[i].0, &self.pairs[i].1));
        }
        pairs
    }
}

impl Clone for Metadata {
    fn clone(&self) -> (copy: Self)
        ensures
            copy@ == self@,
    {
        proof {
            use_type_invariant(self);
        }
        let mut pairs: Vec<(String, MetaValue)> = Vec::with_capacity(self.pairs.len());
        for i in 0..self.pairs.len()
            invariant
                listed(pairs@) == listed(self.pairs@).take(i as int),
        {
            let ghost so_far = pairs@;
            let pair = (self.pairs[i].0.clone(), self.pairs[i].1.clone());
            assert(pair.0@ == self.pairs@[i as int].0@);
            assert(pair.1@ == self.pairs@[i as int].1@);
            pairs.push(pair);
            assert(listed(pairs@) =~= listed(so_far).push((pair.0@, pair.1@)));
            assert(listed(pairs@) =~= listed(self.pairs@).take(i + 1));
        }
        assert(listed(pairs@) =~= listed(self.pairs@));
        Metadata { pairs }
    }
}

/// Whether two lists hold the same keys with equal values.
pub open spec fn pairs_equal(a: Pairs, b: Pairs) -> bool {
    &&& a.len() == b.len()
    &&& forall|i: int|
        0 <= i < a.len() ==> #[trigger] a[i].0 == b[i].0 && values_equal(a[i].1, b[i].1)
}

fn same_value(a: &MetaValue, b: &MetaValue) -> (r: bool)
    ensures
        r == values_equal(a@, b@),
{
    *a == *b
}

fn same_pairs(a: &Vec<(String, MetaValue)>, b: &Vec<(String, MetaValue)>) -> (r: bool)
    ensures
        r == pairs_equal(listed(a@), listed(b@)),
{
    if a.len() != b.len() {
        return false;
    }
    let mut i: usize = 0;
    while i < a.len()
        invariant
            a.len() == b.len(),
            i <= a.len(),
            forall|j: int|
                0 <= j < i ==> #[trigger] listed(a@)[j].0 == listed(b@)[j].0 && values_equal(
                    listed(a@)[j].1,
                    listed(b@)[j].1,
                ),
        decreases a.len() - i,
    {
        assert(listed(a@)[i as int] == (a@[i as int].0@, a@[i as int].1@));
        assert(listed(b@)[i as int] == (b@[i as int].0@, b@[i as int].1@));
        let equal: bool = a[i].0 == b[i].0 && same_value(&a[i].1, &b[i].1);
        assert(listed(a@)[i as int].0 == a@[i as int].0@);
        assert(listed(b@)[i as int].0 == b@[i as int].0@);
        assert(equal == (listed(a@)[i as int].0 == listed(b@)[i as int].0 && values_equal(
            listed(a@)[i as int].1,
            listed(b@)[i as int].1,
        )));
        if !equal {
            return false;
        }
        assert forall|j: int| 0 <= j < i + 1 implies #[trigger] listed(a@)[j].0 == listed(b@)[j].0
            && values_equal(listed(a@)[j].1, listed(b@)[j].1) by {
            if j == i {
                assert(listed(a@)[j] == listed(a@)[i as int]);
            }
        }
        i = i + 1;
    }
    true
}

impl PartialEq for Metadata {
    fn eq(&self, other: &Self) -> (r: bool) {
        same_pairs(&self.pairs, &other.pairs)
    }
}

impl vstd::std_specs::cmp::PartialEqSpecImpl for Metadata {
    open spec fn obeys_eq_spec() -> bool {
        true
    }

    open spec fn eq_spec(&self, other: &Self) -> bool {
        pairs_equal(self@, other@)
    }
}

impl Default for Metadata {
    fn default() -> (md: Self)
        ensures
            md@ == Pairs::empty(),
    {
        Metadata::new()
    }
}

/// A predicate over metadata: equality tests and their conjunction.
#[derive(Debug)]
pub enum Filter {
    /// The key has exactly this value.
    Eq { key: String, value: MetaValue },
    /// All of these hold; an empty list always does.
    And(Vec<Filter>),
}

/// Whether two predicates are the same test by test: of the same key for equal
/// values, or of the same tests in the same order.
pub open spec fn filters_equal(a: Filter, b: Filter) -> bool
    decreases a,
{
    match (a, b) {
        (Filter::Eq { key: k, value: v }, Filter::Eq { key: l, value: w }) => k@ == l@
            && values_equal(v@, w@),
        (Filter::And(x), Filter::And(y)) => x.len() == y.len() && forall|i: int|
            0 <= i < x.len() ==> filters_equal(#[trigger] x[i], y[i]),
        _ => false,
    }
}

/// Whether a predicate is a copy of another, down to the bits of its values.
pub open spec fn filters_alike(a: Filter, b: Filter) -> bool
    decreases a,
{
    match (a, b) {
        (Filter::Eq { key: k, value: v }, Filter::Eq { key: l, value: w }) => k@ == l@ && v@ == w@,
        (Filter::And(x), Filter::And(y)) => x.len() == y.len() && forall|i: int|
            0 <= i < x.len() ==> filters_alike(#[trigger] x[i], y[i]),
        _ => false,
    }
}

fn same_filter(a: &Filter, b: &Filter) -> (r: bool)
    ensures
        r == filters_equal(*a, *b),
    decreases a,
{
    match (a, b) {
        (Filter::Eq { key: k, value: v }, Filter::Eq { key: l, value: w }) => *k == *l
            && same_value(v, w),
        (Filter::And(x), Filter::And(y)) => {
            if x.len() != y.len() {
                return false;
            }
            for i in 0..x.len()
                invariant
                    *a == Filter::And(*x),
                    *b == Filter::And(*y),
                    x.len() == y.len(),
                    forall|j: int| 0 <= j < i ==> filters_equal(#[trigger] x[j], y[j]),
            {
                proof {
                    assert(decreases_to!(*a => a->And_0));
                    assert(decreases_to!(a->And_0 => a->And_0[i as int]));
                }
                if !same_filter(&x[i], &y[i]) {
                    assert(!filters_equal(x[i as int], y[i as int]));
                    return false;
                }
            }
            true
        },
        _ => false,
    }
}

fn copy_filter(filter: &Filter) -> (copy: Filter)
    ensures
        filters_alike(*filter, copy),
    decreases filter,
{
    match filter {
        Filter::Eq { key, value } => Filter::Eq { key: key.clone(), value: value.clone() },
        Filter::And(filters) => {
            let mut copies: Vec<Filter> = Vec::with_capacity(filters.len());
            for i in 0..filters.len()
                invariant
                    *filter == Filter::And(*filters),
                    copies.len() == i,
                    forall|j: int| 0 <= j < i ==> filters_alike(#[trigger] filters[j], copies[j]),
            {
                proof {
                    assert(decreases_to!(*filter => filter->And_0));
                    assert(decreases_to!(filter->And_0 => filter->And_0[i as int]));
                }
                copies.push(copy_filter(&filters[i]));
            }
            Filter::And(copies)
        },
    }
}

impl PartialEq for Filter {
    fn eq(&self, other: &Self) -> (r: bool) {
        same_filter(self, other)
    }
}

impl vstd::std_specs::cmp::PartialEqSpecImpl for Filter {
    open spec fn obeys_eq_spec() -> bool {
        true
    }

    open spec fn eq_spec(&self, other: &Self) -> bool {
        filters_equal(*self, *other)
    }
}

impl Clone for Filter {
    fn clone(&self) -> (copy: Self)
        ensures
            filters_alike(*self, copy),
    {
        copy_filter(self)
    }
}

/// A copy of a predicate holds of the same metadata.
pub proof fn copied_filter_holds_alike(a: Filter, b: Filter, map: Map<Seq<char>, ValueView>)
    requires
        filters_alike(a, b),
    ensures
        a.holds(map) == b.holds(map),
    decreases a,
{
    if let (Filter::And(x), Filter::And(y)) = (a, b) {
        assert forall|i: int| 0 <= i < x.len() implies (#[trigger] x[i]).holds(map) == y[i].holds(
            map,
        ) by {
            assert(filters_alike(x[i], y[i]));
            assert(decreases_to!(a => x[i]));
            copied_filter_holds_alike(x[i], y[i], map);
        }
        assert(a->And_0 == x && b->And_0 == y);
        if a.holds(map) {
            assert forall|i: int| 0 <= i < y.len() implies (#[trigger] y[i]).holds(map) by {
                assert(x[i].holds(map));
            }
        }
        if b.holds(map) {
            assert forall|i: int| 0 <= i < x.len() implies (#[trigger] x[i]).holds(map) by {
                assert(y[i].holds(map));
            }
        }
    }
}

impl Filter {
    /// Whether the predicate holds of these values. A key without a value never
    /// passes an equality test.
    pub open spec fn holds(self, map: Map<Seq<char>, ValueView>) -> bool
        decreases self,
    {
        match self {
            Filter::Eq { key, value } => map.dom().contains(key@) && values_equal(
                map[key@],
                value@,
            ),
            Filter::And(filters) => forall|i: int|
                0 <= i < filters.len() ==> (#[trigger] filters[i]).holds(map),
        }
    }

    /// Whether the predicate holds of some metadata.
    pub fn matches(&self, metadata: &Metadata) -> (r: bool)
        ensures
            r == self.holds(metadata.map()),
        decreases self,
    {
        match self {
            Filter::Eq { key, value } => match metadata.get(key.as_str()) {
                Some(v) => same_value(v, value),
                None => false,
            },
            Filter::And(filters) => {
                let mut i: usize = 0;
                while i < filters.len()
                    invariant
                        i <= filters@.len(),
                        *self == Filter::And(*filters),
                        forall|j: int| 0 <= j < i ==> (#[trigger] filters[j]).holds(metadata.map()),
                    decreases filters@.len() - i,
                {
                    proof {
                        reveal_with_fuel(Filter::holds, 2);
                        assert(decreases_to!(*self => self->And_0));
                        assert(decreases_to!(self->And_0 => self->And_0[i as int]));
                    }
                    if !filters[i].matches(metadata) {
                        return false;
                    }
                    i = i + 1;
                }
                true
            },
        }
    }
}

/// A conjunction holds exactly when each of its parts does; an empty one always
/// holds.
pub proof fn conjunction_holds(filters: Vec<Filter>, map: Map<Seq<char>, ValueView>)
    ensures
        Filter::And(filters).holds(map) <==> forall|i: int|
            0 <= i < filters.len() ==> (#[trigger] filters[i]).holds(map),
        filters.len() == 0 ==> Filter::And(filters).holds(map),
{
    let f = Filter::And(filters);
    assert(f->And_0 == filters);
    if f.holds(map) {
        assert forall|i: int| 0 <= i < filters.len() implies (#[trigger] filters[i]).holds(map) by {
            assert(f->And_0[i].holds(map));
        }
    }
    if forall|i: int| 0 <= i < filters.len() ==> (#[trigger] filters[i]).holds(map) {
        assert forall|i: int| 0 <= i < f->And_0.len() implies (#[trigger] f->And_0[i]).holds(map) by {
            assert(filters[i].holds(map));
        }
        assert(f.holds(map));
    }
}

/// Whether two values are of one type.
pub open spec fn same_type(a: ValueView, b: ValueView) -> bool {
    match (a, b) {
        (ValueView::Bool(_), ValueView::Bool(_)) => true,
        (ValueView::Int(_), ValueView::Int(_)) => true,
        (ValueView::Float(_), ValueView::Float(_)) => true,
        (ValueView::Str(_), ValueView::Str(_)) => true,
        _ => false,
    }
}

/// An equality test never holds of a missing key, nor of a value of another
/// type.
pub proof fn equality_needs_key_and_type(test: Filter, map: Map<Seq<char>, ValueView>)
    requires
        test is Eq,
        test.holds(map),
    ensures
        map.dom().contains(test->key@),
        same_type(map[test->key@], test->value@),
{
}

/// Whether a pattern is a 64-bit float that is a number.
pub open spec fn is_number(bits: u64) -> bool {
    bits % 0x8000_0000_0000_0000 <= 0x7ff0_0000_0000_0000
}

/// Whether a pattern is one of the two zeros.
pub open spec fn is_zero(bits: u64) -> bool {
    bits == 0 || bits == 0x8000_0000_0000_0000
}

/// Two values are equal if and only if they are the same boolean, the same
/// integer, the same text, or the same number: floats with the same bits, or two
/// zeros. Values that differ in anything else are never equal.
pub proof fn equal_values_are_the_same(a: ValueView, b: ValueView)
    ensures
        values_equal(a, b) ==> same_type(a, b),
        !(a is Float) ==> (values_equal(a, b) <==> a == b),
        a is Float ==> (values_equal(a, b) <==> b is Float && is_number(a->Float_0) && is_number(
            b->Float_0,
        ) && (a == b || (is_zero(a->Float_0) && is_zero(b->Float_0)))),
        a != b && !(a is Float && is_zero(a->Float_0)) ==> !values_equal(a, b),
{
}

/// An equality test holds if and only if the key is there, with the very value:
/// the same boolean, integer or text, or the same number.
pub proof fn equality_test_is_exact(
    key: String,
    value: MetaValue,
    map: Map<Seq<char>, ValueView>,
)
    ensures
        ({
            let test = Filter::Eq { key, value };
            &&& !map.dom().contains(key@) ==> !test.holds(map)
            &&& map.dom().contains(key@) && !(value@ is Float) ==> (test.holds(map) <==> map[key@]
                == value@)
            &&& map.dom().contains(key@) && value@ is Float ==> (test.holds(map) <==> {
                &&& map[key@] is Float
                &&& is_number(value@->Float_0)
                &&& map[key@] == value@ || (is_zero(value@->Float_0) && is_zero(
                    map[key@]->Float_0,
                ))
            })
        }),
{
    equal_values_are_the_same(map[key@], value@);
}

/// Equality of values is symmetric and transitive, and every value but "not a
/// number" equals itself.
pub proof fn value_equality_is_an_equivalence(a: ValueView, b: ValueView, c: ValueView)
    ensures
        values_equal(a, a) <==> (a is Float ==> is_number(a->Float_0)),
        values_equal(a, b) ==> values_equal(b, a),
        values_equal(a, b) && values_equal(b, c) ==> values_equal(a, c),
{
}

/// Metadata are equal if and only if they have the same keys, each with equal
/// values.
pub proof fn equal_metadata_agree(a: Pairs, b: Pairs)
    requires
        ascending(a),
        ascending(b),
    ensures
        pairs_equal(a, b) <==> {
            &&& pairs_map(a).dom() == pairs_map(b).dom()
            &&& forall|k: Seq<char>| #[trigger]
                pairs_map(a).dom().contains(k) ==> values_equal(pairs_map(a)[k], pairs_map(b)[k])
        },
    decreases a.len(),
{
    let ma = pairs_map(a);
    let mb = pairs_map(b);
    pairs_map_holds(a);
    pairs_map_holds(b);
    if pairs_equal(a, b) {
        assert forall|k: Seq<char>| #[trigger] ma.dom().contains(k) <==> mb.dom().contains(k) by {
            if ma.dom().contains(k) {
                let i = choose|i: int| 0 <= i < a.len() && #[trigger] a[i].0 == k;
                assert(b[i].0 == k);
                assert(mb.dom().contains(b[i].0));
            }
            if mb.dom().contains(k) {
                let i = choose|i: int| 0 <= i < b.len() && #[trigger] b[i].0 == k;
                assert(a[i].0 == b[i].0);
                assert(ma.dom().contains(a[i].0));
            }
        }
        assert(ma.dom() =~= mb.dom());
        assert forall|k: Seq<char>| #[trigger] ma.dom().contains(k) implies values_equal(
            ma[k],
            mb[k],
        ) by {
            let i = choose|i: int| 0 <= i < a.len() && #[trigger] a[i].0 == k;
            assert(a[i].0 == b[i].0);
            assert(ma.dom().contains(a[i].0) && mb.dom().contains(b[i].0));
        }
    }
    if ma.dom() == mb.dom() && (forall|k: Seq<char>| #[trigger]
        ma.dom().contains(k) ==> values_equal(ma[k], mb[k])) {
        same_keys_same_order(a, b);
        assert forall|i: int| 0 <= i < a.len() implies #[trigger] a[i].0 == b[i].0 && values_equal(
            a[i].1,
            b[i].1,
        ) by {
            assert(ma.dom().contains(a[i].0));
            assert(mb.dom().contains(b[i].0));
        }
    }
}

/// Two ascending lists with the same keys have them in the same places.
proof fn same_keys_same_order(a: Pairs, b: Pairs)
    requires
        ascending(a),
        ascending(b),
        pairs_map(a).dom() == pairs_map(b).dom(),
    ensures
        a.len() == b.len(),
        forall|i: int| 0 <= i < a.len() ==> #[trigger] a[i].0 == b[i].0,
{
    let value = ValueView::Bool(false);
    let x: Pairs = Seq::new(a.len(), |i: int| (a[i].0, value));
    let y: Pairs = Seq::new(b.len(), |i: int| (b[i].0, value));
    assert forall|i: int, j: int| 0 <= i < j < x.len() implies key_before(
        #[trigger] x[i].0,
        #[trigger] x[j].0,
    ) by {
        assert(key_before(a[i].0, a[j].0));
    }
    assert forall|i: int, j: int| 0 <= i < j < y.len() implies key_before(
        #[trigger] y[i].0,
        #[trigger] y[j].0,
    ) by {
        assert(key_before(b[i].0, b[j].0));
    }
    pairs_map_holds(a);
    pairs_map_holds(b);
    pairs_map_holds(x);
    pairs_map_holds(y);
    let mx = pairs_map(x);
    let my = pairs_map(y);
    assert forall|k: Seq<char>| #[trigger] mx.dom().contains(k) <==> my.dom().contains(k) by {
        if mx.dom().contains(k) {
            let i = choose|i: int| 0 <= i < x.len() && #[trigger] x[i].0 == k;
            assert(pairs_map(a).dom().contains(a[i].0));
            let j = choose|j: int| 0 <= j < b.len() && #[trigger] b[j].0 == k;
            assert(my.dom().contains(y[j].0));
        }
        if my.dom().contains(k) {
            let i = choose|i: int| 0 <= i < y.len() && #[trigger] y[i].0 == k;
            assert(pairs_map(b).dom().contains(b[i].0));
            let j = choose|j: int| 0 <= j < a.len() && #[trigger] a[j].0 == k;
            assert(mx.dom().contains(x[j].0));
        }
    }
    assert forall|k: Seq<char>| #[trigger] mx.dom().contains(k) implies mx[k] == my[k] by {
        let i = choose|i: int| 0 <= i < x.len() && #[trigger] x[i].0 == k;
        assert(mx.dom().contains(x[i].0));
        assert(my.dom().contains(k));
        let j = choose|j: int| 0 <= j < y.len() && #[trigger] y[j].0 == k;
        assert(my.dom().contains(y[j].0));
    }
    assert(mx =~= my);
    listing_is_canonical(x, y);
    assert forall|i: int| 0 <= i < a.len() implies #[trigger] a[i].0 == b[i].0 by {
        assert(x[i].0 == y[i].0);
    }
}

/// Equal predicates hold of the same metadata.
pub proof fn equal_filters_hold_alike(a: Filter, b: Filter, map: Map<Seq<char>, ValueView>)
    requires
        filters_equal(a, b),
    ensures
        a.holds(map) == b.holds(map),
    decreases a,
{
    match (a, b) {
        (Filter::And(x), Filter::And(y)) => {
            assert forall|i: int| 0 <= i < x.len() implies (#[trigger] x[i]).holds(map)
                == y[i].holds(map) by {
                assert(filters_equal(x[i], y[i]));
                assert(decreases_to!(a => x[i]));
                equal_filters_hold_alike(x[i], y[i], map);
            }
            assert(a->And_0 == x && b->And_0 == y);
            if a.holds(map) {
                assert forall|i: int| 0 <= i < y.len() implies (#[trigger] y[i]).holds(map) by {
                    assert(x[i].holds(map));
                }
            }
            if b.holds(map) {
                assert forall|i: int| 0 <= i < x.len() implies (#[trigger] x[i]).holds(map) by {
                    assert(y[i].holds(map));
                }
            }
        },
        (Filter::Eq { key: k, value: v }, Filter::Eq { key: l, value: w }) => {
            value_equality_is_an_equivalence(map[k@], v@, w@);
            value_equality_is_an_equivalence(v@, w@, v@);
            value_equality_is_an_equivalence(map[k@], w@, v@);
        },
        _ => {},
    }
}

} // verus!

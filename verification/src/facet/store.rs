//! The facet tree as a search sees it: an ordered table from ranges of
//! values to the documents whose value lies in the range.

use vstd::prelude::*;

use crate::error::SearchError;
use crate::index::{be_bytes, lemma_be_keeps_order, lemma_be_round_trip, push_be, read_be};
use crate::store::{bytes_before, differ_at, lemma_bytes_irreflexive};

verus! {

/// A field of the documents.
pub type FieldId = u8;

/// The key of one entry of the facet tree: the documents of the entry have,
/// in field `field_id`, a value between `left` and `right`. At level 0 the
/// two are equal; an entry of a higher level gathers entries of the level
/// below.
#[derive(Debug, Clone, Copy, PartialEq, Eq, Structural)]
pub struct FacetKey {
    pub field_id: FieldId,
    pub level: u8,
    pub left: i64,
    pub right: i64,
}

/// One end of a range of values.
#[derive(Debug, Clone, Copy, PartialEq, Eq, Structural)]
pub enum Bound {
    Included(i64),
    Excluded(i64),
    Unbounded,
}

/// The order of the keys in the table: by field, then level, then the lower
/// end and the upper end of the range.
pub open spec fn key_before(a: FacetKey, b: FacetKey) -> bool {
    a.field_id < b.field_id || (a.field_id == b.field_id && (a.level < b.level || (a.level
        == b.level && (a.left < b.left || (a.left == b.left && a.right < b.right)))))
}

/// Keys in the order of the table, none of them twice.
pub open spec fn keys_in_order(keys: Seq<FacetKey>) -> bool {
    forall|i: int, j: int| 0 <= i < j < keys.len() ==> key_before(keys[i], keys[j])
}

/// Whether `a` comes before `b` in the table.
pub fn is_key_before(a: &FacetKey, b: &FacetKey) -> (before: bool)
    ensures
        before == key_before(*a, *b),
{
    if a.field_id != b.field_id {
        a.field_id < b.field_id
    } else if a.level != b.level {
        a.level < b.level
    } else if a.left != b.left {
        a.left < b.left
    } else {
        a.right < b.right
    }
}

/// The place of a value among the values, counted from the smallest one:
/// values are in the order of their places.
pub open spec fn place_of_value(value: i64) -> int {
    value + 0x8000_0000_0000_0000
}

/// The eight bytes of the place of a value, the most significant first.
pub open spec fn value_bytes(value: i64) -> Seq<u8> {
    be_bytes((place_of_value(value) / 0x1_0000_0000) as u32) + be_bytes(
        (place_of_value(value) % 0x1_0000_0000) as u32,
    )
}

/// The key of an entry as the table of the index writes it: the field, the
/// level, and the two ends of the range, each as the bytes of its place.
pub open spec fn key_bytes(key: FacetKey) -> Seq<u8> {
    seq![key.field_id, key.level] + value_bytes(key.left) + value_bytes(key.right)
}

/// The length of a written key.
pub const KEY_LENGTH: usize = 18;

/// The value that eight bytes stand for.
fn read_value(bytes: &[u8], at: usize) -> (value: i64)
    requires
        at + 8 <= bytes@.len(),
    ensures
        value_bytes(value) == bytes@.subrange(at as int, at + 8),
{
    let length: usize = bytes.len();
    assert(at + 8 <= length);
    let high: u32 = read_be(bytes, at);
    let low: u32 = read_be(bytes, at + 4);
    let place: u64 = high as u64 * 0x1_0000_0000 + low as u64;
    let value: i64 = if place >= 0x8000_0000_0000_0000 {
        (place - 0x8000_0000_0000_0000) as i64
    } else {
        (place as i64) - 0x4000_0000_0000_0000 - 0x4000_0000_0000_0000
    };
    proof {
        assert(place_of_value(value) == place);
        assert(place / 0x1_0000_0000 == high && place % 0x1_0000_0000 == low) by {
            vstd::arithmetic::div_mod::lemma_fundamental_div_mod_converse(
                place as int,
                0x1_0000_0000,
                high as int,
                low as int,
            );
        }
        assert(value_bytes(value) =~= bytes@.subrange(at as int, at + 8)) by {
            assert(bytes@.subrange(at as int, at + 8) =~= bytes@.subrange(at as int, at + 4)
                + bytes@.subrange(at + 4, at + 8));
        }
    }
    value
}

/// Appends the eight bytes of a value to `key`.
fn push_value(key: &mut Vec<u8>, value: i64)
    ensures
        final(key)@ == old(key)@ + value_bytes(value),
{
    let place: u64 = if value >= 0 {
        value as u64 + 0x8000_0000_0000_0000
    } else {
        (value + 0x4000_0000_0000_0000 + 0x4000_0000_0000_0000) as u64
    };
    assert(place == place_of_value(value));
    push_be(key, (place / 0x1_0000_0000) as u32);
    push_be(key, (place % 0x1_0000_0000) as u32);
    assert(key@ =~= old(key)@ + value_bytes(value));
}

/// The key of an entry as the table of the index writes it.
pub fn encode_key(key: &FacetKey) -> (bytes: Vec<u8>)
    ensures
        bytes@ == key_bytes(*key),
        bytes@.len() == KEY_LENGTH,
{
    let mut bytes: Vec<u8> = Vec::new();
    bytes.push(key.field_id);
    bytes.push(key.level);
    push_value(&mut bytes, key.left);
    push_value(&mut bytes, key.right);
    proof {
        lemma_value_bytes(key.left);
        lemma_value_bytes(key.right);
        assert(bytes@ =~= key_bytes(*key));
    }
    bytes
}

/// The key that `bytes` are the written form of; `None` where they have
/// not the length of a key.
pub open spec fn key_of_bytes(bytes: Seq<u8>) -> Option<FacetKey> {
    if bytes.len() == KEY_LENGTH {
        Some(choose|key: FacetKey| key_bytes(key) == bytes)
    } else {
        None
    }
}

/// The key that `bytes` are the written form of; `None` where they have
/// not the length of a key.
pub fn decode_key(bytes: &[u8]) -> (key: Option<FacetKey>)
    ensures
        key == key_of_bytes(bytes@),
        match key {
            Some(found) => key_bytes(found) == bytes@,
            None => bytes@.len() != KEY_LENGTH,
        },
{
    if bytes.len() != KEY_LENGTH {
        return None;
    }
    let left: i64 = read_value(bytes, 2);
    let right: i64 = read_value(bytes, 10);
    let key = FacetKey { field_id: bytes[0], level: bytes[1], left, right };
    proof {
        assert(key_bytes(key) =~= bytes@) by {
            assert(bytes@ =~= seq![bytes@[0], bytes@[1]] + bytes@.subrange(2, 10)
                + bytes@.subrange(10, 18));
        }
        let chosen = choose|other: FacetKey| key_bytes(other) == bytes@;
        lemma_key_order(key, chosen);
    }
    Some(key)
}

/// A value is written in eight bytes.
pub proof fn lemma_value_bytes(value: i64)
    ensures
        value_bytes(value).len() == 8,
{
    lemma_be_round_trip((place_of_value(value) / 0x1_0000_0000) as u32, Seq::empty());
    lemma_be_round_trip((place_of_value(value) % 0x1_0000_0000) as u32, Seq::empty());
}

/// Strings that start with strings of one length are in the order of these,
/// and in the order of what follows where these are the same.
pub proof fn lemma_order_of_parts(x: Seq<u8>, s: Seq<u8>, y: Seq<u8>, t: Seq<u8>)
    requires
        x.len() == y.len(),
    ensures
        bytes_before(x + s, y + t) <==> (bytes_before(x, y) || (x == y && bytes_before(s, t))),
{
    let a = x + s;
    let b = y + t;
    let n = x.len() as int;
    if bytes_before(a, b) {
        let k = choose|k: int| #[trigger] differ_at(a, b, k);
        if k < n {
            assert forall|j: int| 0 <= j < k implies x[j] == y[j] by {
                assert(a[j] == b[j]);
            }
            assert(a[k] == x[k] && b[k] == y[k]);
            assert(differ_at(x, y, k));
        } else {
            assert forall|j: int| 0 <= j < n implies x[j] == y[j] by {
                assert(a[j] == b[j]);
            }
            assert(x =~= y);
            assert forall|j: int| 0 <= j < k - n implies s[j] == t[j] by {
                assert(a[j + n] == b[j + n]);
            }
            if k < a.len() {
                assert(a[k] == s[k - n] && b[k] == t[k - n]);
            }
            assert(differ_at(s, t, k - n));
        }
    }
    if bytes_before(x, y) {
        let k = choose|k: int| #[trigger] differ_at(x, y, k);
        assert(k < n);
        assert(a[k] == x[k] && b[k] == y[k]);
        assert forall|j: int| 0 <= j < k implies a[j] == b[j] by {
            assert(a[j] == x[j] && b[j] == y[j]);
        }
        assert(differ_at(a, b, k));
    }
    if x == y && bytes_before(s, t) {
        let k = choose|k: int| #[trigger] differ_at(s, t, k);
        assert forall|j: int| 0 <= j < k + n implies a[j] == b[j] by {
            if j >= n {
                assert(a[j] == s[j - n] && b[j] == t[j - n]);
            }
        }
        if k < s.len() {
            assert(a[k + n] == s[k] && b[k + n] == t[k]);
        }
        assert(differ_at(a, b, k + n));
    }
}

/// Values are in the order of their bytes, and different values have
/// different bytes.
pub proof fn lemma_value_order(a: i64, b: i64)
    ensures
        a < b <==> bytes_before(value_bytes(a), value_bytes(b)),
        a == b <==> value_bytes(a) == value_bytes(b),
{
    let pa = place_of_value(a);
    let pb = place_of_value(b);
    let (ha, la) = ((pa / 0x1_0000_0000) as u32, (pa % 0x1_0000_0000) as u32);
    let (hb, lb) = ((pb / 0x1_0000_0000) as u32, (pb % 0x1_0000_0000) as u32);
    lemma_be_round_trip(ha, Seq::empty());
    lemma_be_round_trip(hb, Seq::empty());
    lemma_be_round_trip(la, Seq::empty());
    lemma_be_round_trip(lb, Seq::empty());
    lemma_be_keeps_order(ha, hb);
    lemma_be_keeps_order(la, lb);
    lemma_order_of_parts(be_bytes(ha), be_bytes(la), be_bytes(hb), be_bytes(lb));
    assert(pa == ha * 0x1_0000_0000 + la && pb == hb * 0x1_0000_0000 + lb);
    if value_bytes(a) == value_bytes(b) {
        lemma_bytes_irreflexive(value_bytes(a));
        lemma_order_of_parts(be_bytes(hb), be_bytes(lb), be_bytes(ha), be_bytes(la));
        lemma_be_keeps_order(hb, ha);
        lemma_be_keeps_order(lb, la);
    }
}

/// Keys are in the order of their written form, and different keys are
/// written differently: the table of the index keeps its entries in the
/// order of the store.
pub proof fn lemma_key_order(a: FacetKey, b: FacetKey)
    ensures
        key_before(a, b) <==> bytes_before(key_bytes(a), key_bytes(b)),
        a == b <==> key_bytes(a) == key_bytes(b),
{
    let fa = seq![a.field_id];
    let fb = seq![b.field_id];
    let la = seq![a.level];
    let lb = seq![b.level];
    let (xa, ya) = (value_bytes(a.left), value_bytes(a.right));
    let (xb, yb) = (value_bytes(b.left), value_bytes(b.right));
    lemma_value_bytes(a.left);
    lemma_value_bytes(b.left);
    lemma_value_bytes(a.right);
    lemma_value_bytes(b.right);
    lemma_value_order(a.left, b.left);
    lemma_value_order(a.right, b.right);
    assert(key_bytes(a) =~= fa + (la + (xa + ya)));
    assert(key_bytes(b) =~= fb + (lb + (xb + yb)));
    lemma_order_of_parts(fa, la + (xa + ya), fb, lb + (xb + yb));
    lemma_order_of_parts(la, xa + ya, lb, xb + yb);
    lemma_order_of_parts(xa, ya, xb, yb);
    assert(bytes_before(fa, fb) <==> a.field_id < b.field_id) by {
        if a.field_id < b.field_id {
            assert(differ_at(fa, fb, 0));
        }
        if bytes_before(fa, fb) {
            let k = choose|k: int| #[trigger] differ_at(fa, fb, k);
            assert(k == 0);
        }
    }
    assert(bytes_before(la, lb) <==> a.level < b.level) by {
        if a.level < b.level {
            assert(differ_at(la, lb, 0));
        }
        if bytes_before(la, lb) {
            let k = choose|k: int| #[trigger] differ_at(la, lb, k);
            assert(k == 0);
        }
    }
    assert(fa == fb <==> a.field_id == b.field_id) by {
        assert(fa[0] == a.field_id && fb[0] == b.field_id);
    }
    assert(la == lb <==> a.level == b.level) by {
        assert(la[0] == a.level && lb[0] == b.level);
    }
    if key_bytes(a) == key_bytes(b) {
        let whole = key_bytes(a);
        lemma_bytes_irreflexive(whole);
        lemma_order_of_parts(fb, lb + (xb + yb), fa, la + (xa + ya));
        lemma_order_of_parts(lb, xb + yb, la, xa + ya);
        lemma_order_of_parts(xb, yb, xa, ya);
        lemma_value_order(b.left, a.left);
        lemma_value_order(b.right, a.right);
        assert(whole[0] == a.field_id && whole[0] == b.field_id);
        assert(whole[1] == a.level && whole[1] == b.level);
        assert(!key_before(a, b) && !key_before(b, a));
    }
}

/// One entry of the table: a key and the bytes of a bitmap of documents.
pub struct FacetEntry {
    pub key: FacetKey,
    pub docids: Vec<u8>,
}

/// The facet tree of an index, as one read transaction sees it.
pub struct FacetStore {
    entries: Vec<FacetEntry>,
}

impl FacetStore {
    /// The keys of the table, in its order.
    pub closed spec fn keys(&self) -> Seq<FacetKey> {
        Seq::new(self.entries@.len(), |i: int| self.entries@[i].key)
    }

    /// The bytes kept under each key.
    pub closed spec fn values(&self) -> Seq<Seq<u8>> {
        Seq::new(self.entries@.len(), |i: int| self.entries@[i].docids@)
    }

    /// The keys are in order, and each has its bytes.
    pub open spec fn wf(&self) -> bool {
        keys_in_order(self.keys()) && self.keys().len() == self.values().len()
    }

    /// A table without entries.
    pub fn new() -> (store: FacetStore)
        ensures
            store.wf(),
            store.keys().len() == 0,
    {
        FacetStore { entries: Vec::new() }
    }

    /// The number of entries.
    pub fn len(&self) -> (len: usize)
        ensures
            len == self.keys().len(),
            len == self.values().len(),
    {
        self.entries.len()
    }

    /// The key of the entry at `index`.
    pub fn key_at(&self, index: usize) -> (key: FacetKey)
        requires
            index < self.keys().len(),
        ensures
            key == self.keys()[index as int],
    {
        self.entries[index].key
    }

    /// The bytes of the entry at `index`.
    pub fn docids_at(&self, index: usize) -> (bytes: &[u8])
        requires
            index < self.keys().len(),
        ensures
            bytes@ == self.values()[index as int],
    {
        self.entries[index].docids.as_slice()
    }

    /// Adds an entry at the end of the table. The table is written in the
    /// order of its keys: an entry whose key does not come after the last
    /// one is refused, and the table stays as it was.
    pub fn append(&mut self, key: FacetKey, docids: Vec<u8>) -> (added: bool)
        requires
            old(self).wf(),
        ensures
            final(self).wf(),
            added == (old(self).keys().len() == 0 || key_before(old(self).keys().last(), key)),
            added ==> final(self).keys() == old(self).keys().push(key) && final(self).values()
                == old(self).values().push(docids@),
            !added ==> final(self).keys() == old(self).keys() && final(self).values() == old(
                self,
            ).values(),
    {
        let len: usize = self.entries.len();
        if len > 0 && !is_key_before(&self.entries[len - 1].key, &key) {
            return false;
        }
        let ghost keys = self.keys();
        let ghost values = self.values();
        self.entries.push(FacetEntry { key, docids });
        proof {
            assert(self.keys() =~= keys.push(key));
            assert(self.values() =~= values.push(docids@));
            assert forall|i: int, j: int| 0 <= i < j < self.keys().len() implies key_before(
                self.keys()[i],
                self.keys()[j],
            ) by {
                if j == len && i < len - 1 {
                    assert(key_before(keys[i], keys[len - 1]));
                }
            }
        }
        true
    }

    /// Adds, at the end of the table, an entry as the table of the index
    /// writes it. A key that is not the written form of a key is an error;
    /// otherwise the entry is added as `append` adds it.
    pub fn append_entry(&mut self, key: &[u8], docids: &[u8]) -> (added: Result<bool, SearchError>)
        requires
            old(self).wf(),
        ensures
            final(self).wf(),
            match key_of_bytes(key@) {
                None => added == Err::<bool, SearchError>(SearchError::Decode) && final(self).keys()
                    == old(self).keys() && final(self).values() == old(self).values(),
                Some(found) => added matches Ok(done) && done == (old(self).keys().len() == 0
                    || key_before(old(self).keys().last(), found)) && final(self).keys() == if done {
                    old(self).keys().push(found)
                } else {
                    old(self).keys()
                } && final(self).values() == if done {
                    old(self).values().push(docids@)
                } else {
                    old(self).values()
                },
            },
    {
        match decode_key(key) {
            None => Err(SearchError::Decode),
            Some(found) => {
                let done = self.append(found, crate::store::copy_bytes(docids));
                Ok(done)
            },
        }
    }

    /// The number of entries whose key comes before `bound`, or is `bound`
    /// where `with_bound` is set: the place in the table where a scan stops
    /// that goes up to `bound`, left out or counted in.
    pub fn entries_before(&self, bound: &FacetKey, with_bound: bool) -> (count: usize)
        requires
            self.wf(),
        ensures
            count <= self.keys().len(),
            forall|i: int|
                0 <= i < self.keys().len() ==> (i < count <==> (key_before(
                    #[trigger] self.keys()[i],
                    *bound,
                ) || (with_bound && self.keys()[i] == *bound))),
    {
        let mut low: usize = 0;
        let mut high: usize = self.entries.len();
        while low < high
            invariant
                low <= high <= self.keys().len(),
                self.wf(),
                forall|i: int|
                    0 <= i < low ==> key_before(#[trigger] self.keys()[i], *bound) || (with_bound
                        && self.keys()[i] == *bound),
                forall|i: int|
                    high <= i < self.keys().len() ==> !(key_before(
                        #[trigger] self.keys()[i],
                        *bound,
                    ) || (with_bound && self.keys()[i] == *bound)),
            decreases high - low,
        {
            let middle: usize = low + (high - low) / 2;
            let key: FacetKey = self.entries[middle].key;
            assert(key == self.keys()[middle as int]);
            let below: bool = is_key_before(&key, bound) || (with_bound && !is_key_before(
                bound,
                &key,
            ));
            if below {
                assert forall|i: int| 0 <= i < middle + 1 implies key_before(
                    #[trigger] self.keys()[i],
                    *bound,
                ) || (with_bound && self.keys()[i] == *bound) by {
                    if i < middle {
                        assert(key_before(self.keys()[i], self.keys()[middle as int]));
                    }
                }
                low = middle + 1;
            } else {
                assert forall|i: int| middle <= i < self.keys().len() implies !(key_before(
                    #[trigger] self.keys()[i],
                    *bound,
                ) || (with_bound && self.keys()[i] == *bound)) by {
                    if middle < i {
                        assert(key_before(self.keys()[middle as int], self.keys()[i]));
                    }
                }
                high = middle;
            }
        }
        low
    }
}

} // verus!

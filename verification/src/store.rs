//! An ordered table from keys to values, both strings of bytes: what a
//! search reads of the index inside one read transaction.

use roaring::RoaringBitmap;
use vstd::prelude::*;

use crate::bitmap::{bitmap_from_bytes, bitmap_to_bytes, decoded_members, members};
use crate::error::SearchError;

verus! {

/// `a` comes before `b` in the order of the table: byte by byte, a string
/// coming before the strings that it starts.
pub open spec fn bytes_before(a: Seq<u8>, b: Seq<u8>) -> bool {
    exists|k: int| #[trigger] differ_at(a, b, k)
}

/// `a` and `b` agree before place `k`, where `a` ends or has the smaller byte.
pub open spec fn differ_at(a: Seq<u8>, b: Seq<u8>, k: int) -> bool {
    &&& 0 <= k <= a.len()
    &&& k < b.len()
    &&& forall|j: int| 0 <= j < k ==> a[j] == b[j]
    &&& (k == a.len() || a[k] < b[k])
}

/// `key` starts with `prefix`.
pub open spec fn starts_with(key: Seq<u8>, prefix: Seq<u8>) -> bool {
    prefix.len() <= key.len() && key.take(prefix.len() as int) == prefix
}

/// No string comes before itself.
pub proof fn lemma_bytes_irreflexive(a: Seq<u8>)
    ensures
        !bytes_before(a, a),
{
    assert forall|k: int| !#[trigger] differ_at(a, a, k) by {}
}

/// The order of the table is transitive.
pub proof fn lemma_bytes_transitive(a: Seq<u8>, b: Seq<u8>, c: Seq<u8>)
    requires
        bytes_before(a, b),
        bytes_before(b, c),
    ensures
        bytes_before(a, c),
{
    let k1 = choose|k: int| #[trigger] differ_at(a, b, k);
    let k2 = choose|k: int| #[trigger] differ_at(b, c, k);
    let k = if k1 <= k2 {
        k1
    } else {
        k2
    };
    assert(differ_at(a, c, k));
}

/// Of two different strings, one comes before the other.
pub proof fn lemma_bytes_total(a: Seq<u8>, b: Seq<u8>)
    ensures
        a == b || bytes_before(a, b) || bytes_before(b, a),
{
    lemma_bytes_total_from(a, b, 0);
}

proof fn lemma_bytes_total_from(a: Seq<u8>, b: Seq<u8>, k: int)
    requires
        0 <= k <= a.len(),
        k <= b.len(),
        forall|j: int| 0 <= j < k ==> a[j] == b[j],
    ensures
        a == b || bytes_before(a, b) || bytes_before(b, a),
    decreases a.len() - k,
{
    if k == a.len() {
        if k == b.len() {
            assert(a =~= b);
        } else {
            assert(differ_at(a, b, k));
        }
    } else if k == b.len() {
        assert(differ_at(b, a, k));
    } else if a[k] < b[k] {
        assert(differ_at(a, b, k));
    } else if b[k] < a[k] {
        assert(differ_at(b, a, k));
    } else {
        lemma_bytes_total_from(a, b, k + 1);
    }
}

/// Whether `a` comes before `b` in the order of the table.
pub fn is_bytes_before(a: &[u8], b: &[u8]) -> (before: bool)
    ensures
        before == bytes_before(a@, b@),
{
    let mut at: usize = 0;
    while at < a.len() && at < b.len()
        invariant
            at <= a@.len(),
            at <= b@.len(),
            forall|j: int| 0 <= j < at ==> a@[j] == b@[j],
        decreases a@.len() - at,
    {
        if a[at] < b[at] {
            assert(differ_at(a@, b@, at as int));
            return true;
        }
        if a[at] > b[at] {
            assert forall|k: int| !#[trigger] differ_at(a@, b@, k) by {
                if differ_at(a@, b@, k) {
                    assert(k <= at);
                }
            }
            return false;
        }
        at += 1;
    }
    if at < b.len() {
        assert(differ_at(a@, b@, at as int));
        true
    } else {
        assert forall|k: int| !#[trigger] differ_at(a@, b@, k) by {}
        false
    }
}

/// Whether two strings of bytes are the same.
pub fn is_same_bytes(a: &[u8], b: &[u8]) -> (same: bool)
    ensures
        same == (a@ == b@),
{
    if a.len() != b.len() {
        return false;
    }
    let mut at: usize = 0;
    while at < a.len()
        invariant
            at <= a@.len() == b@.len(),
            forall|j: int| 0 <= j < at ==> a@[j] == b@[j],
        decreases a@.len() - at,
    {
        if a[at] != b[at] {
            return false;
        }
        at += 1;
    }
    assert(a@ =~= b@);
    true
}

/// A copy of a string of bytes.
pub fn copy_bytes(bytes: &[u8]) -> (copy: Vec<u8>)
    ensures
        copy@ == bytes@,
{
    let mut copy: Vec<u8> = Vec::new();
    let mut at: usize = 0;
    while at < bytes.len()
        invariant
            at <= bytes@.len(),
            copy@ == bytes@.take(at as int),
        decreases bytes@.len() - at,
    {
        copy.push(bytes[at]);
        at += 1;
        assert(bytes@.take(at as int) == bytes@.take(at - 1).push(bytes@[at - 1]));
    }
    assert(bytes@.take(at as int) == bytes@);
    copy
}

/// What a bitmap that was read stands for.
pub open spec fn read_of(bitmap: Result<Option<RoaringBitmap>, SearchError>) -> Result<
    Option<Set<u32>>,
    SearchError,
> {
    match bitmap {
        Ok(Some(read)) => Ok(Some(members(&read))),
        Ok(None) => Ok(None),
        Err(error) => Err(error),
    }
}

/// One end of a scan of a table.
pub enum KeyBound {
    Included(Vec<u8>),
    Excluded(Vec<u8>),
    Unbounded,
}

/// The key does not come before the lower end of a scan.
pub open spec fn is_after_low(key: Seq<u8>, low: KeyBound) -> bool {
    match low {
        KeyBound::Included(bound) => !bytes_before(key, bound@),
        KeyBound::Excluded(bound) => bytes_before(bound@, key),
        KeyBound::Unbounded => true,
    }
}

/// The key does not come after the upper end of a scan.
pub open spec fn is_before_high(key: Seq<u8>, high: KeyBound) -> bool {
    match high {
        KeyBound::Included(bound) => !bytes_before(bound@, key),
        KeyBound::Excluded(bound) => bytes_before(key, bound@),
        KeyBound::Unbounded => true,
    }
}

/// One entry of a table.
pub struct KvEntry {
    pub key: Vec<u8>,
    pub value: Vec<u8>,
}

/// An ordered table from keys to values.
pub struct KvTable {
    entries: Vec<KvEntry>,
}

/// Keys in the order of the table, none of them twice.
pub open spec fn keys_sorted(keys: Seq<Seq<u8>>) -> bool {
    forall|i: int, j: int| 0 <= i < j < keys.len() ==> bytes_before(keys[i], keys[j])
}

impl KvTable {
    /// The keys of the table, in its order.
    pub closed spec fn keys(&self) -> Seq<Seq<u8>> {
        Seq::new(self.entries@.len(), |i: int| self.entries@[i].key@)
    }

    /// The value kept under each key.
    pub closed spec fn values(&self) -> Seq<Seq<u8>> {
        Seq::new(self.entries@.len(), |i: int| self.entries@[i].value@)
    }

    /// The keys are in order, and each has its value.
    pub open spec fn wf(&self) -> bool {
        keys_sorted(self.keys()) && self.keys().len() == self.values().len()
    }

    /// The table has an entry for `key`.
    pub open spec fn holds(&self, key: Seq<u8>) -> bool {
        exists|i: int| 0 <= i < self.keys().len() && #[trigger] self.keys()[i] == key
    }

    /// The place of `key` in a table that holds it.
    pub open spec fn place_of(&self, key: Seq<u8>) -> int {
        choose|i: int| 0 <= i < self.keys().len() && #[trigger] self.keys()[i] == key
    }

    /// The value kept under `key`, if there is one.
    pub open spec fn lookup(&self, key: Seq<u8>) -> Option<Seq<u8>> {
        if self.holds(key) {
            Some(self.values()[self.place_of(key)])
        } else {
            None
        }
    }

    /// A key of a table stands at one place only.
    pub proof fn lemma_one_place(&self, i: int, j: int)
        requires
            self.wf(),
            0 <= i < self.keys().len(),
            0 <= j < self.keys().len(),
            self.keys()[i] == self.keys()[j],
        ensures
            i == j,
    {
        lemma_bytes_irreflexive(self.keys()[i]);
        if i < j {
            assert(bytes_before(self.keys()[i], self.keys()[j]));
        } else if j < i {
            assert(bytes_before(self.keys()[j], self.keys()[i]));
        }
    }

    /// The value at the place of a key is what a lookup of the key finds.
    pub proof fn lemma_lookup_at(&self, i: int)
        requires
            self.wf(),
            0 <= i < self.keys().len(),
        ensures
            self.lookup(self.keys()[i]) == Some(self.values()[i]),
    {
        let key = self.keys()[i];
        assert(self.holds(key));
        self.lemma_one_place(i, self.place_of(key));
    }

    /// A table without entries.
    pub fn new() -> (table: KvTable)
        ensures
            table.wf(),
            table.keys().len() == 0,
            forall|key: Seq<u8>| table.lookup(key) is None,
    {
        KvTable { entries: Vec::new() }
    }

    /// The number of entries.
    pub fn len(&self) -> (len: usize)
        ensures
            len == self.keys().len(),
            len == self.values().len(),
    {
        self.entries.len()
    }

    /// The key of the entry at `index`.
    pub fn key_at(&self, index: usize) -> (key: &[u8])
        requires
            index < self.keys().len(),
        ensures
            key@ == self.keys()[index as int],
    {
        self.entries[index].key.as_slice()
    }

    /// The value of the entry at `index`.
    pub fn value_at(&self, index: usize) -> (value: &[u8])
        requires
            index < self.keys().len(),
        ensures
            value@ == self.values()[index as int],
    {
        self.entries[index].value.as_slice()
    }

    /// The number of entries whose key comes before `bound`: the place of
    /// `bound` in the table, and the place where a scan from `bound` starts.
    pub fn entries_before(&self, bound: &[u8]) -> (count: usize)
        requires
            self.wf(),
        ensures
            count <= self.keys().len(),
            forall|i: int|
                0 <= i < self.keys().len() ==> (i < count <==> bytes_before(
                    #[trigger] self.keys()[i],
                    bound@,
                )),
    {
        let mut low: usize = 0;
        let mut high: usize = self.entries.len();
        while low < high
            invariant
                low <= high <= self.keys().len(),
                self.wf(),
                forall|i: int| 0 <= i < low ==> bytes_before(#[trigger] self.keys()[i], bound@),
                forall|i: int|
                    high <= i < self.keys().len() ==> !bytes_before(
                        #[trigger] self.keys()[i],
                        bound@,
                    ),
            decreases high - low,
        {
            let middle: usize = low + (high - low) / 2;
            let key: &[u8] = self.entries[middle].key.as_slice();
            assert(key@ == self.keys()[middle as int]);
            if is_bytes_before(key, bound) {
                assert forall|i: int| 0 <= i < middle + 1 implies bytes_before(
                    #[trigger] self.keys()[i],
                    bound@,
                ) by {
                    if i < middle {
                        assert(bytes_before(self.keys()[i], self.keys()[middle as int]));
                        lemma_bytes_transitive(self.keys()[i], key@, bound@);
                    }
                }
                low = middle + 1;
            } else {
                assert forall|i: int| middle <= i < self.keys().len() implies !bytes_before(
                    #[trigger] self.keys()[i],
                    bound@,
                ) by {
                    if middle < i && bytes_before(self.keys()[i], bound@) {
                        assert(bytes_before(self.keys()[middle as int], self.keys()[i]));
                        lemma_bytes_transitive(key@, self.keys()[i], bound@);
                    }
                }
                high = middle;
            }
        }
        low
    }

    /// The place of `key` in the table, if the table has it.
    pub fn find(&self, key: &[u8]) -> (place: Option<usize>)
        requires
            self.wf(),
        ensures
            match place {
                Some(index) => index < self.keys().len() && self.keys()[index as int] == key@
                    && self.lookup(key@) == Some(self.values()[index as int]),
                None => self.lookup(key@) is None,
            },
    {
        let index: usize = self.entries_before(key);
        if index < self.entries.len() && is_same_bytes(self.entries[index].key.as_slice(), key) {
            proof {
                assert(self.keys()[index as int] == key@);
                self.lemma_lookup_at(index as int);
            }
            Some(index)
        } else {
            proof {
                if self.holds(key@) {
                    let i = self.place_of(key@);
                    lemma_bytes_irreflexive(key@);
                    if index < i {
                        assert(bytes_before(self.keys()[index as int], self.keys()[i]));
                    }
                }
            }
            None
        }
    }

    /// The value kept under `key`, if there is one.
    pub fn get(&self, key: &[u8]) -> (value: Option<&[u8]>)
        requires
            self.wf(),
        ensures
            match value {
                Some(bytes) => self.lookup(key@) == Some(bytes@),
                None => self.lookup(key@) is None,
            },
    {
        match self.find(key) {
            Some(index) => Some(self.entries[index].value.as_slice()),
            None => None,
        }
    }

    /// Keeps `value` under `key`, in place of what was kept under it.
    pub fn put(&mut self, key: &[u8], value: Vec<u8>)
        requires
            old(self).wf(),
        ensures
            final(self).wf(),
            final(self).lookup(key@) == Some(value@),
            forall|other: Seq<u8>|
                other != key@ ==> final(self).lookup(other) == old(self).lookup(other),
    {
        let index: usize = self.entries_before(key);
        let ghost keys = self.keys();
        let ghost values = self.values();
        let ghost before = *self;
        if index < self.entries.len() && is_same_bytes(self.entries[index].key.as_slice(), key) {
            self.entries.set(index, KvEntry { key: copy_bytes(key), value });
            proof {
                assert(self.keys() =~= keys);
                assert(self.values() =~= values.update(index as int, value@));
                self.lemma_lookup_at(index as int);
                assert forall|other: Seq<u8>| other != key@ implies self.lookup(other)
                    == before.lookup(other) by {
                    if before.holds(other) {
                        let i = before.place_of(other);
                        assert(self.keys()[i] == other);
                        self.lemma_lookup_at(i);
                        assert(before.keys()[i] == other);
                        before.lemma_lookup_at(i);
                    }
                }
            }
        } else {
            self.entries.insert(index, KvEntry { key: copy_bytes(key), value });
            proof {
                assert(self.keys() =~= keys.insert(index as int, key@));
                assert(self.values() =~= values.insert(index as int, value@));
                assert forall|i: int, j: int| 0 <= i < j < self.keys().len() implies bytes_before(
                    self.keys()[i],
                    self.keys()[j],
                ) by {
                    if j < index {
                        assert(bytes_before(keys[i], keys[j]));
                    } else if j == index {
                        assert(bytes_before(keys[i], key@));
                    } else if i < index {
                        assert(bytes_before(keys[i], keys[j - 1]));
                    } else if i == index {
                        let next = keys[j - 1];
                        assert(!bytes_before(next, key@));
                        lemma_bytes_total(next, key@);
                        if next == key@ {
                            assert(bytes_before(keys[index as int], keys[j - 1]) || index == j
                                - 1);
                            assert(keys[index as int] != key@);
                            lemma_bytes_irreflexive(key@);
                            if index < j - 1 {
                                assert(!bytes_before(keys[index as int], key@));
                            }
                        }
                    } else {
                        assert(bytes_before(keys[i - 1], keys[j - 1]));
                    }
                }
                self.lemma_lookup_at(index as int);
                assert forall|other: Seq<u8>| other != key@ implies self.lookup(other)
                    == before.lookup(other) by {
                    if before.holds(other) {
                        let i = before.place_of(other);
                        let moved = if i < index {
                            i
                        } else {
                            i + 1
                        };
                        assert(self.keys()[moved] == other);
                        self.lemma_lookup_at(moved);
                        assert(before.keys()[i] == other);
                        before.lemma_lookup_at(i);
                    } else if self.holds(other) {
                        let i = self.place_of(other);
                        if i < index {
                            assert(keys[i] == other);
                        } else {
                            assert(keys[i - 1] == other);
                        }
                    }
                }
            }
        }
    }

    /// What `get_bitmap` reads under `key`: nothing where the table has no
    /// such key, a failure where what it keeps there is no bitmap.
    pub open spec fn bitmap_under(&self, key: Seq<u8>) -> Result<Option<Set<u32>>, SearchError> {
        match self.lookup(key) {
            None => Ok(None),
            Some(bytes) => match decoded_members(bytes) {
                None => Err(SearchError::Bitmap),
                Some(docids) => Ok(Some(docids)),
            },
        }
    }

    /// Reads the bitmap kept under `key`. `None` where the table has no such
    /// key; an error where what it keeps there is no bitmap.
    pub fn get_bitmap(&self, key: &[u8]) -> (bitmap: Result<Option<RoaringBitmap>, SearchError>)
        requires
            self.wf(),
        ensures
            read_of(bitmap) == self.bitmap_under(key@),
    {
        match self.get(key) {
            None => Ok(None),
            Some(bytes) => match bitmap_from_bytes(bytes) {
                Some(read) => Ok(Some(read)),
                None => Err(SearchError::Bitmap),
            },
        }
    }

    /// Keeps `bitmap` under `key`, in the form in which `get_bitmap` reads
    /// it back: a bitmap of the same integers. The bitmap is always
    /// written, and `true` is returned.
    pub fn put_bitmap(&mut self, key: &[u8], bitmap: &RoaringBitmap) -> (written: bool)
        requires
            old(self).wf(),
        ensures
            final(self).wf(),
            written,
            final(self).bitmap_under(key@) == Ok::<Option<Set<u32>>, SearchError>(
                Some(members(bitmap)),
            ),
            forall|other: Seq<u8>|
                other != key@ ==> final(self).lookup(other) == old(self).lookup(other),
    {
        match bitmap_to_bytes(bitmap) {
            Some(bytes) => {
                self.put(key, bytes);
                true
            },
            None => false,
        }
    }

    /// The number of entries whose key comes before `bound`, or is `bound`
    /// where `with_bound` is set.
    fn entries_upto(&self, bound: &[u8], with_bound: bool) -> (count: usize)
        requires
            self.wf(),
        ensures
            count <= self.keys().len(),
            forall|i: int|
                0 <= i < self.keys().len() ==> (i < count <==> (bytes_before(
                    #[trigger] self.keys()[i],
                    bound@,
                ) || (with_bound && self.keys()[i] == bound@))),
    {
        let count: usize = self.entries_before(bound);
        if with_bound && count < self.entries.len() && is_same_bytes(
            self.entries[count].key.as_slice(),
            bound,
        ) {
            proof {
                assert(self.keys()[count as int] == bound@);
                lemma_bytes_irreflexive(bound@);
                assert forall|i: int| count < i < self.keys().len() implies #[trigger] self.keys()[i]
                    != bound@ by {
                    assert(bytes_before(self.keys()[count as int], self.keys()[i]));
                }
            }
            count + 1
        } else {
            proof {
                if with_bound {
                    lemma_bytes_irreflexive(bound@);
                    assert forall|i: int| count <= i < self.keys().len() implies #[trigger] self.keys()[i]
                        != bound@ by {
                        if count < i {
                            assert(bytes_before(self.keys()[count as int], self.keys()[i]));
                            assert(!bytes_before(self.keys()[count as int], bound@));
                        }
                    }
                    assert forall|i: int| 0 <= i < count implies #[trigger] self.keys()[i]
                        != bound@ by {}
                }
            }
            count
        }
    }

    /// The first place of the entries whose key lies between `low` and
    /// `high`, and the place after the last of them. A scan visits these
    /// places from the first one up, and a scan in reverse from the last
    /// one down.
    pub fn range_scan(&self, low: &KeyBound, high: &KeyBound) -> (range: (usize, usize))
        requires
            self.wf(),
        ensures
            range.0 <= range.1 <= self.keys().len(),
            forall|i: int|
                0 <= i < self.keys().len() ==> (range.0 <= i < range.1 <==> is_after_low(
                    #[trigger] self.keys()[i],
                    *low,
                ) && is_before_high(self.keys()[i], *high)),
    {
        let first: usize = match low {
            KeyBound::Included(bound) => self.entries_upto(bound.as_slice(), false),
            KeyBound::Excluded(bound) => self.entries_upto(bound.as_slice(), true),
            KeyBound::Unbounded => 0,
        };
        let last: usize = match high {
            KeyBound::Included(bound) => self.entries_upto(bound.as_slice(), true),
            KeyBound::Excluded(bound) => self.entries_upto(bound.as_slice(), false),
            KeyBound::Unbounded => self.entries.len(),
        };
        proof {
            assert forall|i: int| 0 <= i < self.keys().len() implies (first <= i <==> is_after_low(
                #[trigger] self.keys()[i],
                *low,
            )) by {
                match *low {
                    KeyBound::Included(bound) => {},
                    KeyBound::Excluded(bound) => {
                        lemma_bytes_total(self.keys()[i], bound@);
                        lemma_bytes_irreflexive(bound@);
                        if bytes_before(bound@, self.keys()[i]) && bytes_before(
                            self.keys()[i],
                            bound@,
                        ) {
                            lemma_bytes_transitive(bound@, self.keys()[i], bound@);
                        }
                    },
                    KeyBound::Unbounded => {},
                }
            }
            assert forall|i: int| 0 <= i < self.keys().len() implies (i < last <==> is_before_high(
                #[trigger] self.keys()[i],
                *high,
            )) by {
                match *high {
                    KeyBound::Included(bound) => {
                        lemma_bytes_total(self.keys()[i], bound@);
                        lemma_bytes_irreflexive(bound@);
                        if bytes_before(bound@, self.keys()[i]) && bytes_before(
                            self.keys()[i],
                            bound@,
                        ) {
                            lemma_bytes_transitive(bound@, self.keys()[i], bound@);
                        }
                    },
                    KeyBound::Excluded(bound) => {},
                    KeyBound::Unbounded => {},
                }
            }
        }
        if last < first {
            (first, first)
        } else {
            (first, last)
        }
    }

    /// Reads the bitmap of the entry at `index`: a scan reads the bitmaps
    /// of the entries that it needs, and of no other.
    pub fn bitmap_at(&self, index: usize) -> (bitmap: Result<RoaringBitmap, SearchError>)
        requires
            self.wf(),
            index < self.keys().len(),
        ensures
            match decoded_members(self.values()[index as int]) {
                None => bitmap == Err::<RoaringBitmap, SearchError>(SearchError::Bitmap),
                Some(docids) => bitmap matches Ok(read) && members(&read) == docids,
            },
    {
        match bitmap_from_bytes(self.entries[index].value.as_slice()) {
            Some(read) => Ok(read),
            None => Err(SearchError::Bitmap),
        }
    }

    /// The first place of the entries whose key starts with `prefix`, and
    /// the place after the last of them.
    pub fn prefix_range(&self, prefix: &[u8]) -> (range: (usize, usize))
        requires
            self.wf(),
        ensures
            range.0 <= range.1 <= self.keys().len(),
            forall|i: int|
                0 <= i < self.keys().len() ==> (range.0 <= i < range.1 <==> starts_with(
                    #[trigger] self.keys()[i],
                    prefix@,
                )),
    {
        let first: usize = self.entries_before(prefix);
        let mut last: usize = first;
        proof {
            assert forall|i: int| 0 <= i < first implies !starts_with(
                #[trigger] self.keys()[i],
                prefix@,
            ) by {
                lemma_prefix_not_after(self.keys()[i], prefix@);
            }
        }
        while last < self.entries.len() && has_prefix(
            self.entries[last].key.as_slice(),
            prefix,
        )
            invariant
                first <= last <= self.keys().len(),
                self.wf(),
                forall|i: int|
                    first <= i < last ==> starts_with(#[trigger] self.keys()[i], prefix@),
            decreases self.keys().len() - last,
        {
            assert(self.entries@[last as int].key@ == self.keys()[last as int]);
            last += 1;
        }
        proof {
            assert forall|i: int| last <= i < self.keys().len() implies !starts_with(
                #[trigger] self.keys()[i],
                prefix@,
            ) by {
                let stop = self.keys()[last as int];
                assert(self.entries@[last as int].key@ == stop);
                assert(!starts_with(stop, prefix@));
                assert(!bytes_before(stop, prefix@));
                if last < i && starts_with(self.keys()[i], prefix@) {
                    assert(bytes_before(stop, self.keys()[i]));
                    lemma_between_prefixed(prefix@, stop, self.keys()[i]);
                }
            }
        }
        (first, last)
    }
}

/// Whether `key` starts with `prefix`.
pub fn has_prefix(key: &[u8], prefix: &[u8]) -> (starts: bool)
    ensures
        starts == starts_with(key@, prefix@),
{
    if prefix.len() > key.len() {
        return false;
    }
    let mut at: usize = 0;
    while at < prefix.len()
        invariant
            at <= prefix@.len() <= key@.len(),
            forall|j: int| 0 <= j < at ==> key@[j] == prefix@[j],
        decreases prefix@.len() - at,
    {
        if key[at] != prefix[at] {
            assert(key@.take(prefix@.len() as int)[at as int] != prefix@[at as int]);
            return false;
        }
        at += 1;
    }
    assert(key@.take(prefix@.len() as int) =~= prefix@);
    true
}

/// A key that starts with a prefix does not come before the prefix.
pub proof fn lemma_prefix_not_after(key: Seq<u8>, prefix: Seq<u8>)
    requires
        bytes_before(key, prefix),
    ensures
        !starts_with(key, prefix),
{
    let k = choose|k: int| #[trigger] differ_at(key, prefix, k);
    if starts_with(key, prefix) {
        assert(key.take(prefix.len() as int)[k] == prefix[k]);
    }
}

/// A key between a prefix and a key that starts with it starts with it too.
pub proof fn lemma_between_prefixed(prefix: Seq<u8>, middle: Seq<u8>, last: Seq<u8>)
    requires
        !bytes_before(middle, prefix),
        bytes_before(middle, last),
        starts_with(last, prefix),
    ensures
        starts_with(middle, prefix),
{
    let k = choose|k: int| #[trigger] differ_at(middle, last, k);
    let n = prefix.len() as int;
    assert forall|j: int| 0 <= j < n implies last[j] == prefix[j] by {
        assert(last.take(n)[j] == prefix[j]);
    }
    if k < n {
        // `middle` leaves `last`, and so the prefix, at place `k`, on the smaller side
        assert(differ_at(middle, prefix, k));
    } else {
        assert(middle.take(n) =~= prefix);
    }
}

} // verus!

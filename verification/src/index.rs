//! The posting tables of an index, and what a search reads in them.

use roaring::RoaringBitmap;
use vstd::prelude::*;

use crate::bitmap::{bitmap_from_bytes, decoded_members, empty_bitmap, insert_into, members, union_with};
use crate::error::SearchError;
use crate::store::{copy_bytes, starts_with, KvTable};

verus! {

/// The four bytes of `value`, the most significant first.
pub open spec fn be_bytes(value: u32) -> Seq<u8> {
    seq![
        (value / 0x100 / 0x100 / 0x100) as u8,
        (value / 0x100 / 0x100 % 0x100) as u8,
        (value / 0x100 % 0x100) as u8,
        (value % 0x100) as u8,
    ]
}

/// The number that four bytes stand for, the most significant first.
pub open spec fn be_value(bytes: Seq<u8>) -> int {
    bytes[0] * 0x100_0000 + bytes[1] * 0x1_0000 + bytes[2] * 0x100 + bytes[3]
}

/// The bytes of a number stand for the number, and the number of four bytes
/// is written as these bytes.
pub proof fn lemma_be_round_trip(value: u32, bytes: Seq<u8>)
    ensures
        be_bytes(value).len() == 4,
        be_value(be_bytes(value)) == value,
        bytes.len() == 4 ==> 0 <= be_value(bytes) <= u32::MAX && be_bytes(be_value(bytes) as u32)
            == bytes,
{
    lemma_be_decode(value);
    if bytes.len() == 4 {
        lemma_be_encode(bytes);
    }
}

proof fn lemma_be_decode(value: u32)
    ensures
        be_bytes(value).len() == 4,
        be_value(be_bytes(value)) == value,
{
    let v = value as int;
    let q1 = v / 0x100;
    let q2 = q1 / 0x100;
    let q3 = q2 / 0x100;
    assert(v == 0x100 * q1 + v % 0x100);
    assert(q1 == 0x100 * q2 + q1 % 0x100);
    assert(q2 == 0x100 * q3 + q2 % 0x100);
    assert(0 <= q3 < 0x100);
    let written = be_bytes(value);
    assert(written[0] == q3 && written[1] == q2 % 0x100 && written[2] == q1 % 0x100 && written[3]
        == v % 0x100);
}

proof fn lemma_be_encode(bytes: Seq<u8>)
    requires
        bytes.len() == 4,
    ensures
        0 <= be_value(bytes) <= u32::MAX,
        be_bytes(be_value(bytes) as u32) == bytes,
{
    let v = be_value(bytes);
    let q1 = bytes[0] * 0x1_0000 + bytes[1] * 0x100 + bytes[2];
    let q2 = bytes[0] * 0x100 + bytes[1];
    let q3 = bytes[0] as int;
    vstd::arithmetic::div_mod::lemma_fundamental_div_mod_converse(v, 0x100, q1, bytes[3] as int);
    vstd::arithmetic::div_mod::lemma_fundamental_div_mod_converse(q1, 0x100, q2, bytes[2] as int);
    vstd::arithmetic::div_mod::lemma_fundamental_div_mod_converse(q2, 0x100, q3, bytes[1] as int);
    let value = v as u32;
    let written = be_bytes(value);
    assert(written[0] == bytes[0] && written[1] == bytes[1] && written[2] == bytes[2] && written[3]
        == bytes[3]);
    assert(written =~= bytes);
}

/// Numbers are in the order of their bytes.
pub proof fn lemma_be_keeps_order(a: u32, b: u32)
    ensures
        a < b <==> crate::store::bytes_before(be_bytes(a), be_bytes(b)),
{
    let x = be_bytes(a);
    let y = be_bytes(b);
    lemma_be_round_trip(a, x);
    lemma_be_round_trip(b, y);
    if a < b {
        if x[0] != y[0] {
            assert(crate::store::differ_at(x, y, 0));
        } else if x[1] != y[1] {
            assert(crate::store::differ_at(x, y, 1));
        } else if x[2] != y[2] {
            assert(crate::store::differ_at(x, y, 2));
        } else {
            assert(crate::store::differ_at(x, y, 3));
        }
    } else {
        assert forall|k: int| !#[trigger] crate::store::differ_at(x, y, k) by {
            if crate::store::differ_at(x, y, k) {
                if k == 0 {
                } else if k == 1 {
                    assert(x[0] == y[0]);
                } else if k == 2 {
                    assert(x[0] == y[0] && x[1] == y[1]);
                } else if k == 3 {
                    assert(x[0] == y[0] && x[1] == y[1] && x[2] == y[2]);
                }
            }
        }
    }
}

/// Appends the four bytes of `value` to `key`, the most significant first.
pub fn push_be(key: &mut Vec<u8>, value: u32)
    ensures
        final(key)@ == old(key)@ + be_bytes(value),
{
    key.push((value / 0x100 / 0x100 / 0x100) as u8);
    key.push((value / 0x100 / 0x100 % 0x100) as u8);
    key.push((value / 0x100 % 0x100) as u8);
    key.push((value % 0x100) as u8);
    assert(key@ =~= old(key)@ + be_bytes(value));
}

/// The number that the four bytes of `bytes` from `at` on stand for.
pub fn read_be(bytes: &[u8], at: usize) -> (value: u32)
    requires
        at + 4 <= bytes@.len(),
    ensures
        value == be_value(bytes@.subrange(at as int, at + 4)),
        be_bytes(value) == bytes@.subrange(at as int, at + 4),
{
    let value: u32 = bytes[at] as u32 * 0x100_0000 + bytes[at + 1] as u32 * 0x1_0000 + bytes[at
        + 2] as u32 * 0x100 + bytes[at + 3] as u32;
    proof {
        lemma_be_round_trip(0, bytes@.subrange(at as int, at + 4));
    }
    value
}

/// The key of the documents that have `word` at `position`.
pub open spec fn posting_key(word: Seq<u8>, position: u32) -> Seq<u8> {
    word + be_bytes(position)
}

/// `key` is the key of the documents that have `word` at some position.
pub open spec fn is_posting_key(key: Seq<u8>, word: Seq<u8>) -> bool {
    key.len() == word.len() + 4 && starts_with(key, word)
}

/// The documents that a value holds, and none where it is no bitmap.
pub open spec fn docids_in(value: Seq<u8>) -> Set<u32> {
    match decoded_members(value) {
        Some(docids) => docids,
        None => Set::empty(),
    }
}

/// The tables of an index, as one read transaction sees them.
pub struct Index {
    /// The set of the words, and the header of the records.
    pub main: KvTable,
    /// The positions of each word.
    pub postings_attrs: KvTable,
    /// The positions of the words that start with each prefix.
    pub prefix_postings_attrs: KvTable,
    /// The documents that have a word at a position.
    pub postings_ids: KvTable,
    /// The documents that have, at a position, a word that starts with a prefix.
    pub prefix_postings_ids: KvTable,
    /// The record of each document.
    pub documents: KvTable,
}

impl Index {
    /// Each table has its keys in order.
    pub open spec fn wf(&self) -> bool {
        &&& self.main.wf()
        &&& self.postings_attrs.wf()
        &&& self.prefix_postings_attrs.wf()
        &&& self.postings_ids.wf()
        &&& self.prefix_postings_ids.wf()
        &&& self.documents.wf()
    }

    /// Every bitmap of the positions and of the documents can be read, and
    /// every key of the table of documents is the identifier of a document.
    pub open spec fn reads_well(&self) -> bool {
        &&& forall|i: int|
            0 <= i < self.postings_ids.keys().len() ==> decoded_members(
                #[trigger] self.postings_ids.values()[i],
            ) is Some
        &&& forall|i: int|
            0 <= i < self.postings_attrs.keys().len() ==> decoded_members(
                #[trigger] self.postings_attrs.values()[i],
            ) is Some
        &&& !self.documents_fail()
    }

    /// In an index whose bitmaps can all be read, no reading of the
    /// positions of a word, or of the documents of a word at a position,
    /// fails.
    pub proof fn lemma_reads(&self, key: Seq<u8>)
        requires
            self.wf(),
            self.reads_well(),
        ensures
            !(self.postings_ids.bitmap_under(key) is Err),
            !(self.postings_attrs.bitmap_under(key) is Err),
            !self.word_fails(key),
    {
        if self.postings_ids.holds(key) {
            let place = self.postings_ids.place_of(key);
            assert(decoded_members(self.postings_ids.values()[place]) is Some);
        }
        if self.postings_attrs.holds(key) {
            let place = self.postings_attrs.place_of(key);
            assert(decoded_members(self.postings_attrs.values()[place]) is Some);
        }
    }

    /// Some bitmap of the documents of `word` cannot be read.
    pub open spec fn word_fails(&self, word: Seq<u8>) -> bool {
        exists|i: int|
            0 <= i < self.postings_ids.keys().len() && is_posting_key(
                #[trigger] self.postings_ids.keys()[i],
                word,
            ) && decoded_members(self.postings_ids.values()[i]) is None
    }

    /// The documents that have `word` at some position.
    pub open spec fn word_members(&self, word: Seq<u8>) -> Set<u32> {
        Set::new(
            |d: u32|
                exists|i: int|
                    0 <= i < self.postings_ids.keys().len() && is_posting_key(
                        #[trigger] self.postings_ids.keys()[i],
                        word,
                    ) && docids_in(self.postings_ids.values()[i]).contains(d),
        )
    }

    /// Some key of the table of documents is not the identifier of a document.
    pub open spec fn documents_fail(&self) -> bool {
        exists|i: int|
            0 <= i < self.documents.keys().len() && (#[trigger] self.documents.keys()[i]).len()
                != 4
    }

    /// The identifiers of all the documents.
    pub open spec fn all_documents(&self) -> Set<u32> {
        Set::new(|d: u32| self.documents.holds(be_bytes(d)))
    }

    /// An index without entries: each of its tables is empty, so that it
    /// has no document, and no word is found in it.
    pub fn new() -> (index: Index)
        ensures
            index.wf(),
            index.main.keys().len() == 0,
            index.postings_attrs.keys().len() == 0,
            index.prefix_postings_attrs.keys().len() == 0,
            index.postings_ids.keys().len() == 0,
            index.prefix_postings_ids.keys().len() == 0,
            index.documents.keys().len() == 0,
            index.all_documents() == Set::<u32>::empty(),
            !index.documents_fail(),
            forall|word: Seq<u8>|
                !index.word_fails(word) && index.word_members(word) == Set::<u32>::empty(),
    {
        let index = Index {
            main: KvTable::new(),
            postings_attrs: KvTable::new(),
            prefix_postings_attrs: KvTable::new(),
            postings_ids: KvTable::new(),
            prefix_postings_ids: KvTable::new(),
            documents: KvTable::new(),
        };
        proof {
            assert(index.all_documents() =~= Set::<u32>::empty());
            assert forall|word: Seq<u8>|
                !index.word_fails(word) && index.word_members(word) == Set::<u32>::empty() by {
                assert(index.word_members(word) =~= Set::<u32>::empty());
            }
        }
        index
    }

    /// The identifiers of all the documents. A key of the table of
    /// documents that is no identifier is an error.
    pub fn documents_ids(&self) -> (docids: Result<RoaringBitmap, SearchError>)
        requires
            self.wf(),
        ensures
            match docids {
                Ok(found) => !self.documents_fail() && members(&found) == self.all_documents(),
                Err(error) => self.documents_fail() && error == SearchError::Decode,
            },
    {
        let mut found = empty_bitmap();
        let mut at: usize = 0;
        while at < self.documents.len()
            invariant
                self.wf(),
                at <= self.documents.keys().len(),
                forall|i: int| 0 <= i < at ==> (#[trigger] self.documents.keys()[i]).len() == 4,
                forall|d: u32|
                    members(&found).contains(d) <==> exists|i: int|
                        0 <= i < at && #[trigger] self.documents.keys()[i] == be_bytes(d),
            decreases self.documents.keys().len() - at,
        {
            let key: &[u8] = self.documents.key_at(at);
            if key.len() != 4 {
                return Err(SearchError::Decode);
            }
            let docid: u32 = read_be(key, 0);
            let ghost before = members(&found);
            insert_into(&mut found, docid);
            proof {
                assert(key@.subrange(0, 4) =~= key@);
                assert(be_bytes(docid) == self.documents.keys()[at as int]);
                assert forall|d: u32| members(&found).contains(d) <==> exists|i: int|
                    0 <= i < at + 1 && #[trigger] self.documents.keys()[i] == be_bytes(d) by {
                    if d == docid {
                        assert(self.documents.keys()[at as int] == be_bytes(d));
                    } else if before.contains(d) {
                        let i = choose|i: int|
                            0 <= i < at && #[trigger] self.documents.keys()[i] == be_bytes(d);
                        assert(self.documents.keys()[i] == be_bytes(d));
                    } else if exists|i: int|
                        0 <= i < at + 1 && #[trigger] self.documents.keys()[i] == be_bytes(d) {
                        let i = choose|i: int|
                            0 <= i < at + 1 && #[trigger] self.documents.keys()[i] == be_bytes(d);
                        if i == at {
                            lemma_be_round_trip(d, be_bytes(d));
                            lemma_be_round_trip(docid, be_bytes(docid));
                        }
                    }
                }
            }
            at += 1;
        }
        proof {
            assert forall|d: u32| members(&found).contains(d) <==> self.all_documents().contains(
                d,
            ) by {
                if self.documents.holds(be_bytes(d)) {
                    let i = self.documents.place_of(be_bytes(d));
                    assert(self.documents.keys()[i] == be_bytes(d));
                }
            }
            assert(members(&found) =~= self.all_documents());
        }
        Ok(found)
    }

    /// The documents that have `word` at some position: the union of the
    /// bitmaps kept under the word and each of its positions.
    pub fn word_docids(&self, word: &[u8]) -> (docids: Result<RoaringBitmap, SearchError>)
        requires
            self.wf(),
        ensures
            match docids {
                Ok(found) => !self.word_fails(word@) && members(&found) == self.word_members(
                    word@,
                ),
                Err(error) => self.word_fails(word@) && error == SearchError::Bitmap,
            },
    {
        let (first, last) = self.postings_ids.prefix_range(word);
        let mut found = empty_bitmap();
        let mut at: usize = first;
        while at < last
            invariant
                self.wf(),
                first <= at <= last <= self.postings_ids.keys().len(),
                forall|i: int|
                    0 <= i < self.postings_ids.keys().len() ==> (first <= i < last <==> starts_with(
                        #[trigger] self.postings_ids.keys()[i],
                        word@,
                    )),
                forall|i: int|
                    first <= i < at && is_posting_key(
                        #[trigger] self.postings_ids.keys()[i],
                        word@,
                    ) ==> decoded_members(self.postings_ids.values()[i]) is Some,
                forall|d: u32|
                    members(&found).contains(d) <==> exists|i: int|
                        first <= i < at && is_posting_key(
                            #[trigger] self.postings_ids.keys()[i],
                            word@,
                        ) && docids_in(self.postings_ids.values()[i]).contains(d),
            decreases last - at,
        {
            let key: &[u8] = self.postings_ids.key_at(at);
            if key.len() >= 4 && key.len() - 4 == word.len() {
                match bitmap_from_bytes(self.postings_ids.value_at(at)) {
                    None => {
                        return Err(SearchError::Bitmap);
                    },
                    Some(docids) => {
                        let ghost before = members(&found);
                        union_with(&mut found, &docids);
                        proof {
                            assert forall|d: u32| members(&found).contains(d) <==> exists|i: int|
                                first <= i < at + 1 && is_posting_key(
                                    #[trigger] self.postings_ids.keys()[i],
                                    word@,
                                ) && docids_in(self.postings_ids.values()[i]).contains(d) by {
                                if before.contains(d) {
                                    let i = choose|i: int|
                                        first <= i < at && is_posting_key(
                                            #[trigger] self.postings_ids.keys()[i],
                                            word@,
                                        ) && docids_in(self.postings_ids.values()[i]).contains(d);
                                    assert(is_posting_key(self.postings_ids.keys()[i], word@));
                                } else if members(&docids).contains(d) {
                                    assert(is_posting_key(
                                        self.postings_ids.keys()[at as int],
                                        word@,
                                    ));
                                }
                            }
                        }
                    },
                }
            }
            at += 1;
        }
        proof {
            assert forall|d: u32| members(&found).contains(d) <==> self.word_members(
                word@,
            ).contains(d) by {
                if self.word_members(word@).contains(d) {
                    let i = choose|i: int|
                        0 <= i < self.postings_ids.keys().len() && is_posting_key(
                            #[trigger] self.postings_ids.keys()[i],
                            word@,
                        ) && docids_in(self.postings_ids.values()[i]).contains(d);
                    assert(starts_with(self.postings_ids.keys()[i], word@));
                }
            }
            assert(members(&found) =~= self.word_members(word@));
            if self.word_fails(word@) {
                let i = choose|i: int|
                    0 <= i < self.postings_ids.keys().len() && is_posting_key(
                        #[trigger] self.postings_ids.keys()[i],
                        word@,
                    ) && decoded_members(self.postings_ids.values()[i]) is None;
                assert(starts_with(self.postings_ids.keys()[i], word@));
            }
        }
        Ok(found)
    }

    /// The key of the documents that have `word` at `position`.
    pub fn posting_key_of(word: &[u8], position: u32) -> (key: Vec<u8>)
        ensures
            key@ == posting_key(word@, position),
    {
        let mut key: Vec<u8> = copy_bytes(word);
        push_be(&mut key, position);
        key
    }

    /// The documents that have `word` at `position`; `None` where the index
    /// keeps no bitmap for them.
    pub fn word_position_docids(&self, word: &[u8], position: u32) -> (docids: Result<
        Option<RoaringBitmap>,
        SearchError,
    >)
        requires
            self.wf(),
        ensures
            crate::store::read_of(docids) == self.postings_ids.bitmap_under(
                posting_key(word@, position),
            ),
    {
        let key = Index::posting_key_of(word, position);
        self.postings_ids.get_bitmap(key.as_slice())
    }

    /// The positions at which `word` stands in some document; `None` where
    /// the index does not know the word.
    pub fn word_positions(&self, word: &[u8]) -> (positions: Result<
        Option<RoaringBitmap>,
        SearchError,
    >)
        requires
            self.wf(),
        ensures
            crate::store::read_of(positions) == self.postings_attrs.bitmap_under(word@),
    {
        self.postings_attrs.get_bitmap(word)
    }
}

} // verus!

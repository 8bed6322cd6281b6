//! What the indexer writes for a search to read: the layout of the keys, the
//! merging of the values written under one key, and the tables of an index.

use cow_utils::CowUtils;
use roaring::RoaringBitmap;
use slice_group_by::StrGroupBy;
use vstd::prelude::*;
use vstd::string::StrSliceExecFns;

use crate::bitmap::{bitmap_from_bytes, bitmap_to_bytes, decoded_members, members, union_with};
use crate::error::SearchError;
use crate::index::{docids_in, Index};
use crate::store::{copy_bytes, is_same_bytes, KvTable};

verus! {

/// The key under which the set of the words is written.
pub open spec fn words_fst_key() -> Seq<u8> {
    seq![0u8, 119u8, 111u8, 114u8, 100u8, 115u8, 45u8, 102u8, 115u8, 116u8]
}

/// The key under which the header of the records is written.
pub open spec fn headers_key() -> Seq<u8> {
    seq![0u8, 104u8, 101u8, 97u8, 100u8, 101u8, 114u8, 115u8]
}

/// The name of the set of the words in the main table of an index.
pub open spec fn words_fst_name() -> Seq<u8> {
    words_fst_key().subrange(1, 10)
}

/// The name of the header of the records in the main table of an index.
pub open spec fn headers_name() -> Seq<u8> {
    headers_key().subrange(1, 8)
}

/// A key of the table that `tag` stands for: the tag, then the key inside
/// the table.
pub open spec fn tagged(tag: u8, key: Seq<u8>) -> Seq<u8> {
    seq![tag] + key
}

/// The key under which the set of the words is written.
pub fn words_fst_key_bytes() -> (key: Vec<u8>)
    ensures
        key@ == words_fst_key(),
{
    let mut key: Vec<u8> = Vec::new();
    key.push(0);
    key.push(119);
    key.push(111);
    key.push(114);
    key.push(100);
    key.push(115);
    key.push(45);
    key.push(102);
    key.push(115);
    key.push(116);
    assert(key@ =~= words_fst_key());
    key
}

/// The key under which the header of the records is written.
pub fn headers_key_bytes() -> (key: Vec<u8>)
    ensures
        key@ == headers_key(),
{
    let mut key: Vec<u8> = Vec::new();
    key.push(0);
    key.push(104);
    key.push(101);
    key.push(97);
    key.push(100);
    key.push(101);
    key.push(114);
    key.push(115);
    assert(key@ =~= headers_key());
    key
}

/// The key of the table that `tag` stands for.
pub fn tagged_key(tag: u8, key: &[u8]) -> (whole: Vec<u8>)
    ensures
        whole@ == tagged(tag, key@),
{
    let mut whole: Vec<u8> = Vec::new();
    whole.push(tag);
    let mut at: usize = 0;
    while at < key.len()
        invariant
            at <= key@.len(),
            whole@ == seq![tag] + key@.take(at as int),
        decreases key@.len() - at,
    {
        whole.push(key[at]);
        at += 1;
        assert(key@.take(at as int) == key@.take(at - 1).push(key@[at - 1]));
    }
    assert(key@.take(at as int) == key@);
    whole
}

/// The part of a key after its tag.
pub fn untagged_key(key: &[u8]) -> (rest: Vec<u8>)
    requires
        key@.len() > 0,
    ensures
        rest@ == key@.subrange(1, key@.len() as int),
        key@ == tagged(key@[0], rest@),
{
    let rest = copy_bytes(vstd::slice::slice_subrange(key, 1, key.len()));
    assert(key@ =~= tagged(key@[0], rest@));
    rest
}

/// The set that holds the words of each of the sets `values`, written as
/// `fst` writes a set; `None` where one of `values` is no set.
pub uninterp spec fn fst_union_of(values: Seq<Seq<u8>>) -> Option<Seq<u8>>;

/// What the bytes of a vector of vectors are.
pub open spec fn values_of(values: Seq<Vec<u8>>) -> Seq<Seq<u8>> {
    Seq::new(values.len(), |i: int| values[i]@)
}

/// What an optional vector of bytes holds.
pub open spec fn bytes_of(value: Option<Vec<u8>>) -> Option<Seq<u8>> {
    match value {
        Some(bytes) => Some(bytes@),
        None => None,
    }
}

/// Reads each of `values` with `fst::Set::new`, unites them with
/// `fst::set::OpBuilder::union`, and builds the united set in memory with
/// `fst::SetBuilder`. `fst` reads bytes without checking them, and may give
/// up on bytes that it did not write, so each of `values` must be a set
/// that `fst` built. The bytes that come out depend on `values` alone, so
/// they have a name; nothing more is claimed of them.
#[verifier::external_body]
fn fst_union(values: &[Vec<u8>]) -> (united: Option<Vec<u8>>)
    requires
        are_word_sets(values_of(values@)),
    ensures
        bytes_of(united) == fst_union_of(values_of(values@)),
{
    let mut sets = Vec::new();
    for value in values {
        sets.push(fst::Set::new(value.as_slice()).ok()?);
    }
    let mut op = fst::set::OpBuilder::new();
    for set in sets.iter() {
        op.push(set.stream());
    }
    let mut build = fst::SetBuilder::memory();
    build.extend_stream(op.union()).ok()?;
    build.into_inner().ok()
}

/// The set of `words`, written as `fst` writes a set; `None` where `fst`
/// refuses them.
pub uninterp spec fn fst_of_words(words: Seq<Seq<u8>>) -> Option<Seq<u8>>;

/// Whether `bytes` are a set of words as `fst` builds it.
pub open spec fn is_word_set(bytes: Seq<u8>) -> bool {
    exists|words: Seq<Seq<u8>>| #[trigger] fst_of_words(words) == Some(bytes)
}

/// Whether each of `values` is a set of words as `fst` builds it.
pub open spec fn are_word_sets(values: Seq<Seq<u8>>) -> bool {
    forall|i: int| 0 <= i < values.len() ==> is_word_set(#[trigger] values[i])
}

/// `fst::Set::from_iter` of `words`, and the bytes of the set that it
/// builds. They depend on `words` alone, so they have a name; nothing more
/// is claimed of them.
#[verifier::external_body]
fn fst_from_words(words: &[Vec<u8>]) -> (set: Option<Vec<u8>>)
    ensures
        bytes_of(set) == fst_of_words(values_of(words@)),
{
    fst::Set::from_iter(words.iter()).ok().map(|set| set.as_fst().as_bytes().to_vec())
}

/// The documents that one of the first `upto` of `values` holds.
pub open spec fn united(values: Seq<Seq<u8>>, upto: int) -> Set<u32> {
    Set::new(
        |d: u32|
            exists|i: int|
                0 <= i < upto && i < values.len() && docids_in(#[trigger] values[i]).contains(d),
    )
}

/// Each of `values` is a bitmap.
pub open spec fn all_bitmaps(values: Seq<Seq<u8>>) -> bool {
    forall|i: int| 0 <= i < values.len() ==> decoded_members(#[trigger] values[i]) is Some
}

/// All of `values` are the same.
pub open spec fn all_same(values: Seq<Seq<u8>>) -> bool {
    forall|i: int| 0 <= i < values.len() ==> #[trigger] values[i] == values[0]
}

/// Whether all of `values` are the same.
fn are_all_same(values: &[Vec<u8>]) -> (same: bool)
    ensures
        same == all_same(values_of(values@)),
{
    let mut at: usize = 1;
    while at < values.len()
        invariant
            1 <= at,
            forall|i: int|
                0 <= i < at && i < values@.len() ==> (#[trigger] values@[i])@ == values@[0]@,
        decreases values@.len() - at,
    {
        if !is_same_bytes(values[at].as_slice(), values[0].as_slice()) {
            assert(values_of(values@)[at as int] != values_of(values@)[0]);
            return false;
        }
        at += 1;
    }
    true
}

/// The union of the bitmaps `values`; `None` where one of them is no bitmap.
fn unite_bitmaps(values: &[Vec<u8>]) -> (union: Option<RoaringBitmap>)
    requires
        values@.len() > 0,
    ensures
        match union {
            Some(bitmap) => all_bitmaps(values_of(values@)) && members(&bitmap) == united(
                values_of(values@),
                values@.len() as int,
            ),
            None => !all_bitmaps(values_of(values@)),
        },
{
    let ghost all = values_of(values@);
    let mut first = match bitmap_from_bytes(values[0].as_slice()) {
        Some(first) => first,
        None => {
            assert(decoded_members(all[0]) is None);
            return None;
        },
    };
    proof {
        assert(members(&first) =~= united(all, 1)) by {
            assert(decoded_members(all[0]) == Some(members(&first)));
        }
    }
    let mut at: usize = 1;
    while at < values.len()
        invariant
            1 <= at <= values@.len(),
            all == values_of(values@),
            forall|i: int| 0 <= i < at ==> decoded_members(#[trigger] all[i]) is Some,
            members(&first) == united(all, at as int),
        decreases values@.len() - at,
    {
        let bitmap = match bitmap_from_bytes(values[at].as_slice()) {
            Some(bitmap) => bitmap,
            None => {
                assert(decoded_members(all[at as int]) is None);
                return None;
            },
        };
        let ghost before = members(&first);
        union_with(&mut first, &bitmap);
        proof {
            assert(decoded_members(all[at as int]) == Some(members(&bitmap)));
            assert forall|d: u32| members(&first).contains(d) <==> united(
                all,
                at + 1,
            ).contains(d) by {
                if before.contains(d) {
                    let i = choose|i: int|
                        0 <= i < at && i < all.len() && docids_in(#[trigger] all[i]).contains(d);
                    assert(decoded_members(all[i]) is Some);
                }
            }
            assert(members(&first) =~= united(all, at + 1));
        }
        at += 1;
    }
    Some(first)
}

/// The union of the bitmaps `values`, written as a bitmap; `None` where one
/// of them is no bitmap.
fn merge_bitmaps(values: &[Vec<u8>]) -> (merged: Option<Vec<u8>>)
    requires
        values@.len() > 0,
    ensures
        match merged {
            Some(bytes) => all_bitmaps(values_of(values@)) && decoded_members(bytes@) == Some(
                united(values_of(values@), values@.len() as int),
            ),
            None => !all_bitmaps(values_of(values@)),
        },
{
    match unite_bitmaps(values) {
        Some(union) => bitmap_to_bytes(&union),
        None => None,
    }
}

/// Whether every one of `values` is a bitmap.
fn are_all_bitmaps(values: &[Vec<u8>]) -> (all: bool)
    ensures
        all == all_bitmaps(values_of(values@)),
{
    let mut at: usize = 0;
    while at < values.len()
        invariant
            at <= values@.len(),
            forall|i: int| 0 <= i < at ==> decoded_members(#[trigger] values_of(values@)[i]) is Some,
        decreases values@.len() - at,
    {
        if bitmap_from_bytes(values[at].as_slice()).is_none() {
            assert(decoded_members(values_of(values@)[at as int]) is None);
            return false;
        }
        at += 1;
    }
    true
}

/// Whether the values that were written under `key` can be merged: sets
/// of words that `fst` built under the key of the words; one header, or
/// one record, written each time under the key of the headers or of a
/// document; and at least one bitmap, and nothing else, under the key of a
/// table of bitmaps. A key of no table takes no value.
pub open spec fn can_merge(key: Seq<u8>, values: Seq<Seq<u8>>) -> bool {
    if key == words_fst_key() {
        are_word_sets(values)
    } else if key == headers_key() {
        values.len() > 0 && all_same(values)
    } else if key.len() > 0 && 1 <= key[0] <= 4 {
        values.len() > 0 && all_bitmaps(values)
    } else if key.len() > 0 && key[0] == 5 {
        values.len() > 0 && all_same(values)
    } else {
        false
    }
}

/// Whether `merged` is what is kept under `key` for `values`: the union of
/// the sets of words; the header or the record that was written each time;
/// a bitmap of the integers of all the bitmaps.
pub open spec fn is_merged(key: Seq<u8>, values: Seq<Seq<u8>>, merged: Option<Seq<u8>>) -> bool {
    if key == words_fst_key() {
        merged == fst_union_of(values)
    } else if key == headers_key() || (key.len() > 0 && key[0] == 5) {
        merged == Some(values[0])
    } else {
        merged matches Some(bytes) && decoded_members(bytes) == Some(
            united(values, values.len() as int),
        )
    }
}

/// The value to keep under `key` when `values` were written under it, in
/// this order.
///
/// The sets of words are united, and so are the bitmaps of the positions
/// and of the documents. The header of the records and the record of a
/// document are the same each time, and are kept.
pub fn merge(key: &[u8], values: &[Vec<u8>]) -> (merged: Option<Vec<u8>>)
    requires
        can_merge(key@, values_of(values@)),
    ensures
        is_merged(key@, values_of(values@), bytes_of(merged)),
        key@ != words_fst_key() ==> merged is Some,
{
    let words_fst = words_fst_key_bytes();
    let headers = headers_key_bytes();
    if is_same_bytes(key, words_fst.as_slice()) {
        fst_union(values)
    } else if is_same_bytes(key, headers.as_slice()) {
        assert(values_of(values@)[0] == values@[0]@);
        Some(copy_bytes(values[0].as_slice()))
    } else if key[0] == 1 || key[0] == 2 || key[0] == 3 || key[0] == 4 {
        // We either merge postings attrs, prefix postings or postings ids.
        merge_bitmaps(values)
    } else {
        assert(values_of(values@)[0] == values@[0]@);
        Some(copy_bytes(values[0].as_slice()))
    }
}

/// The value to keep under `key` for `values`, where `key` is not the key
/// of the words and the values can be merged; `None` elsewhere. The sets of
/// words cannot be told from other bytes: `merge` takes those that `fst`
/// built.
pub fn merge_checked(key: &[u8], values: &[Vec<u8>]) -> (merged: Option<Vec<u8>>)
    ensures
        match merged {
            Some(bytes) => key@ != words_fst_key() && can_merge(key@, values_of(values@))
                && is_merged(key@, values_of(values@), Some(bytes@)),
            None => key@ == words_fst_key() || !can_merge(key@, values_of(values@)),
        },
{
    let words_fst = words_fst_key_bytes();
    let headers = headers_key_bytes();
    if is_same_bytes(key, words_fst.as_slice()) || key.len() == 0 || values.len() == 0 {
        return None;
    }
    let plain = is_same_bytes(key, headers.as_slice()) || key[0] == 5;
    let bitmaps = !plain && 1 <= key[0] && key[0] <= 4;
    if (plain && are_all_same(values)) || (bitmaps && are_all_bitmaps(values)) {
        merge(key, values)
    } else {
        None
    }
}

/// What the words of a vector of lists of words are.
pub open spec fn lists_of(lists: Seq<Vec<Vec<u8>>>) -> Seq<Seq<Seq<u8>>> {
    Seq::new(lists.len(), |i: int| values_of(lists[i]@))
}

/// The set of the words of each of `lists`, as `fst` builds it.
pub open spec fn sets_of(lists: Seq<Seq<Seq<u8>>>) -> Seq<Seq<u8>> {
    Seq::new(lists.len(), |i: int| fst_of_words(lists[i])->Some_0)
}

/// The set of all the words of `lists`: a set is built of each list, and
/// the sets are merged. `None` where `fst` refuses one of the lists, as it
/// does where the words of a list are not in order.
pub fn unite_words(lists: &[Vec<Vec<u8>>]) -> (set: Option<Vec<u8>>)
    ensures
        bytes_of(set) == if forall|i: int|
            0 <= i < lists@.len() ==> (#[trigger] fst_of_words(lists_of(lists@)[i])) is Some {
            fst_union_of(sets_of(lists_of(lists@)))
        } else {
            None
        },
{
    let ghost all = lists_of(lists@);
    let mut sets: Vec<Vec<u8>> = Vec::new();
    let mut at: usize = 0;
    while at < lists.len()
        invariant
            at <= lists@.len(),
            all == lists_of(lists@),
            sets@.len() == at,
            forall|i: int| 0 <= i < at ==> fst_of_words(#[trigger] all[i]) == Some(sets@[i]@),
        decreases lists@.len() - at,
    {
        match fst_from_words(lists[at].as_slice()) {
            Some(bytes) => {
                assert(fst_of_words(all[at as int]) == Some(bytes@));
                sets.push(bytes);
            },
            None => {
                assert(fst_of_words(all[at as int]) is None);
                return None;
            },
        }
        at += 1;
    }
    proof {
        assert(values_of(sets@) =~= sets_of(all));
        assert forall|i: int| 0 <= i < sets@.len() implies is_word_set(
            #[trigger] values_of(sets@)[i],
        ) by {
            assert(fst_of_words(all[i]) == Some(values_of(sets@)[i]));
        }
    }
    let key = words_fst_key_bytes();
    merge(key.as_slice(), sets.as_slice())
}

/// The table of an index that a key of the indexer belongs to.
#[derive(Debug, Clone, Copy, PartialEq, Eq, Structural)]
pub enum Table {
    Main,
    PostingsAttrs,
    PrefixPostingsAttrs,
    PostingsIds,
    PrefixPostingsIds,
    Documents,
}

/// The table that a key of the indexer belongs to, with the key inside
/// that table; `None` for a key that belongs to no table.
pub open spec fn destination(key: Seq<u8>) -> Option<(Table, Seq<u8>)> {
    if key == words_fst_key() {
        Some((Table::Main, words_fst_name()))
    } else if key == headers_key() {
        Some((Table::Main, headers_name()))
    } else if key.len() == 0 {
        None
    } else if key[0] == 1 {
        Some((Table::PostingsAttrs, key.subrange(1, key.len() as int)))
    } else if key[0] == 2 {
        Some((Table::PrefixPostingsAttrs, key.subrange(1, key.len() as int)))
    } else if key[0] == 3 {
        Some((Table::PostingsIds, key.subrange(1, key.len() as int)))
    } else if key[0] == 4 {
        Some((Table::PrefixPostingsIds, key.subrange(1, key.len() as int)))
    } else if key[0] == 5 {
        Some((Table::Documents, key.subrange(1, key.len() as int)))
    } else {
        None
    }
}

/// What a destination stands for.
pub open spec fn destination_of(found: Option<(Table, Vec<u8>)>) -> Option<(Table, Seq<u8>)> {
    match found {
        Some((table, key)) => Some((table, key@)),
        None => None,
    }
}

/// The table that a key of the indexer belongs to, with the key inside
/// that table.
pub fn route(key: &[u8]) -> (found: Option<(Table, Vec<u8>)>)
    ensures
        destination_of(found) == destination(key@),
{
    let words_fst = words_fst_key_bytes();
    let headers = headers_key_bytes();
    if is_same_bytes(key, words_fst.as_slice()) {
        Some((Table::Main, untagged_key(words_fst.as_slice())))
    } else if is_same_bytes(key, headers.as_slice()) {
        Some((Table::Main, untagged_key(headers.as_slice())))
    } else if key.len() == 0 {
        None
    } else if key[0] == 1 {
        Some((Table::PostingsAttrs, untagged_key(key)))
    } else if key[0] == 2 {
        Some((Table::PrefixPostingsAttrs, untagged_key(key)))
    } else if key[0] == 3 {
        Some((Table::PostingsIds, untagged_key(key)))
    } else if key[0] == 4 {
        Some((Table::PrefixPostingsIds, untagged_key(key)))
    } else if key[0] == 5 {
        Some((Table::Documents, untagged_key(key)))
    } else {
        None
    }
}

impl Index {
    /// The table of the index that `table` names.
    pub open spec fn table(&self, table: Table) -> KvTable {
        match table {
            Table::Main => self.main,
            Table::PostingsAttrs => self.postings_attrs,
            Table::PrefixPostingsAttrs => self.prefix_postings_attrs,
            Table::PostingsIds => self.postings_ids,
            Table::PrefixPostingsIds => self.prefix_postings_ids,
            Table::Documents => self.documents,
        }
    }
}

/// Writes into the index what the indexer wrote under `key`: `val` goes to
/// the table that the key belongs to, under the key without its tag. A key
/// that belongs to no table changes nothing.
pub fn writer(index: &mut Index, key: &[u8], val: &[u8]) -> (done: Result<(), SearchError>)
    requires
        old(index).wf(),
    ensures
        done is Ok,
        final(index).wf(),
        match destination(key@) {
            None => *final(index) == *old(index),
            Some((table, inner)) => {
                &&& final(index).table(table).lookup(inner) == Some(val@)
                &&& forall|other: Seq<u8>|
                    other != inner ==> final(index).table(table).lookup(other) == old(
                        index,
                    ).table(table).lookup(other)
                &&& forall|untouched: Table|
                    untouched != table ==> final(index).table(untouched) == old(index).table(
                        untouched,
                    )
            },
        },
{
    match route(key) {
        None => {},
        Some((table, inner)) => {
            let value = copy_bytes(val);
            match table {
                Table::Main => {
                    // Write the words fst, or the headers
                    index.main.put(inner.as_slice(), value);
                },
                Table::PostingsAttrs => {
                    // Write the postings lists
                    index.postings_attrs.put(inner.as_slice(), value);
                },
                Table::PrefixPostingsAttrs => {
                    // Write the prefix postings lists
                    index.prefix_postings_attrs.put(inner.as_slice(), value);
                },
                Table::PostingsIds => {
                    // Write the postings lists
                    index.postings_ids.put(inner.as_slice(), value);
                },
                Table::PrefixPostingsIds => {
                    // Write the prefix postings lists
                    index.prefix_postings_ids.put(inner.as_slice(), value);
                },
                Table::Documents => {
                    // Write the documents
                    index.documents.put(inner.as_slice(), value);
                },
            }
        },
    }
    Ok(())
}

/// Whether `std` counts the character as a letter or a digit.
pub uninterp spec fn alphanumeric(c: char) -> bool;

/// `char::is_alphanumeric`: whether the character is a letter or a digit.
/// The answer depends on the character alone, so it has a name.
#[verifier::external_body]
pub(crate) fn is_alphanumeric(c: char) -> (answer: bool)
    ensures
        answer == alphanumeric(c),
{
    c.is_alphanumeric()
}

/// Whether the character is a letter or a digit.
pub fn is_word_char(c: char) -> (answer: bool)
    ensures
        answer == alphanumeric(c),
{
    is_alphanumeric(c)
}

/// The groups into which `slice_group_by` splits a text where the letters
/// and digits end or begin.
pub uninterp spec fn char_groups(text: Seq<char>) -> Seq<Seq<char>>;

/// Whether `groups` are the groups of `text`: no group is empty, the groups
/// one after the other make the text, the characters of one group are all
/// letters or digits or all something else, and two groups that follow
/// one another are not of the same kind.
pub open spec fn is_grouping(text: Seq<char>, groups: Seq<Seq<char>>) -> bool {
    &&& forall|i: int| 0 <= i < groups.len() ==> (#[trigger] groups[i]).len() > 0
    &&& groups.flatten() == text
    &&& forall|i: int, j: int|
        0 <= i < groups.len() && 0 <= j < groups[i].len() ==> alphanumeric(
            #[trigger] groups[i][j],
        ) == alphanumeric(groups[i][0])
    &&& forall|i: int|
        0 <= i < groups.len() - 1 ==> alphanumeric((#[trigger] groups[i])[0]) != alphanumeric(
            groups[i + 1][0],
        )
}

/// What the strings of a vector are.
pub open spec fn texts_of(texts: Seq<String>) -> Seq<Seq<char>> {
    Seq::new(texts.len(), |i: int| texts[i]@)
}

/// `StrGroupBy::linear_group_by_key` with `is_word_char` as the key: the
/// longest groups of consecutive characters of `string` that are all
/// letters or digits, or all something else, in their order. No group is
/// empty, and the groups make up the text.
#[verifier::external_body]
fn group_by_alphanumeric(string: &str) -> (groups: Vec<String>)
    ensures
        texts_of(groups@) == char_groups(string@),
        is_grouping(string@, texts_of(groups@)),
{
    string.linear_group_by_key(|c| is_word_char(c)).map(|group| group.to_string()).collect()
}

/// The lowercase equivalent of a text.
pub uninterp spec fn lowercase_of(text: Seq<char>) -> Seq<char>;

/// `CowUtils::cow_to_lowercase`: the lowercase equivalent of `word`. It
/// depends on `word` alone, so it has a name.
#[verifier::external_body]
fn lowercase(word: &str) -> (lowered: String)
    ensures
        lowered@ == lowercase_of(word@),
{
    word.cow_to_lowercase().into_owned()
}

/// The first `upto` groups that start with a letter or a digit.
pub open spec fn tokens_among(groups: Seq<Seq<char>>, upto: int) -> Seq<Seq<char>>
    decreases upto,
{
    if upto <= 0 || upto > groups.len() {
        Seq::empty()
    } else if groups[upto - 1].len() > 0 && alphanumeric(groups[upto - 1][0]) {
        tokens_among(groups, upto - 1).push(groups[upto - 1])
    } else {
        tokens_among(groups, upto - 1)
    }
}

/// The words of a text: its groups of letters and digits, in their order.
pub open spec fn alphanumeric_tokens(text: Seq<char>) -> Seq<Seq<char>> {
    tokens_among(char_groups(text), char_groups(text).len() as int)
}

/// The groups among `groups` that start with a letter or a digit, in
/// their order.
pub fn tokens_of_groups(groups: &[String]) -> (tokens: Vec<String>)
    ensures
        texts_of(tokens@) == tokens_among(texts_of(groups@), groups@.len() as int),
{
    let ghost all = texts_of(groups@);
    let mut tokens: Vec<String> = Vec::new();
    let mut at: usize = 0;
    while at < groups.len()
        invariant
            at <= groups@.len(),
            all == texts_of(groups@),
            texts_of(tokens@) == tokens_among(all, at as int),
        decreases groups@.len() - at,
    {
        let group: &String = &groups[at];
        assert(all[at as int] == group@);
        let ghost before = tokens@;
        if group.as_str().unicode_len() > 0 && is_word_char(group.as_str().get_char(0)) {
            tokens.push(group.clone());
            assert(texts_of(tokens@) =~= texts_of(before).push(group@));
        }
        at += 1;
    }
    tokens
}

/// The words of a text: its groups of letters and digits, in their order.
pub fn simple_alphanumeric_tokens(string: &str) -> (tokens: Vec<String>)
    ensures
        texts_of(tokens@) == alphanumeric_tokens(string@),
        is_grouping(string@, char_groups(string@)),
{
    let groups = group_by_alphanumeric(string);
    tokens_of_groups(groups.as_slice())
}

/// The most positions of one attribute that the indexer keeps.
pub const MAX_POSITION: usize = 1000;

/// The most attributes of a record that the indexer keeps.
pub const MAX_ATTRIBUTES: usize = 4294967;

/// The longest word, in bytes, that the indexer keeps.
pub const MAX_WORD_LENGTH: usize = 500;

/// A word of a document as the indexer keeps it: its bytes in lowercase,
/// and its position.
pub struct Posting {
    pub word: Seq<u8>,
    pub position: u32,
}

/// The indexer keeps the word: it is not empty and not too long.
pub open spec fn is_kept(token: Seq<char>) -> bool {
    token.len() > 0 && vstd::utf8::encode_utf8(token).len() < MAX_WORD_LENGTH
}

/// The postings of the first `upto` words of an attribute.
pub open spec fn field_postings(tokens: Seq<Seq<char>>, attr: int, upto: int) -> Seq<Posting>
    decreases upto,
{
    if upto <= 0 || upto > tokens.len() {
        Seq::empty()
    } else if is_kept(tokens[upto - 1]) {
        field_postings(tokens, attr, upto - 1).push(
            Posting {
                word: vstd::utf8::encode_utf8(lowercase_of(tokens[upto - 1])),
                position: (attr * 1000 + upto - 1) as u32,
            },
        )
    } else {
        field_postings(tokens, attr, upto - 1)
    }
}

/// The number of words of an attribute that are given a position.
pub open spec fn words_kept(tokens: Seq<Seq<char>>) -> int {
    if tokens.len() < MAX_POSITION {
        tokens.len() as int
    } else {
        MAX_POSITION as int
    }
}

/// The postings of the first `upto` attributes of a record.
pub open spec fn record_postings(fields: Seq<Seq<char>>, upto: int) -> Seq<Posting>
    decreases upto,
{
    if upto <= 0 || upto > fields.len() {
        Seq::empty()
    } else {
        record_postings(fields, upto - 1) + field_postings(
            alphanumeric_tokens(fields[upto - 1]),
            upto - 1,
            words_kept(alphanumeric_tokens(fields[upto - 1])),
        )
    }
}

/// The postings of a record: for each of its first attributes, each of the
/// first words that the indexer keeps, at the place of the attribute times
/// a thousand plus the place of the word.
pub open spec fn postings_of(fields: Seq<Seq<char>>) -> Seq<Posting> {
    record_postings(
        fields,
        if fields.len() < MAX_ATTRIBUTES {
            fields.len() as int
        } else {
            MAX_ATTRIBUTES as int
        },
    )
}

/// The sets of integers that a table of bitmaps holds, by key.
pub open spec fn bitmaps_of(table: &KvTable) -> Map<Seq<u8>, Set<u32>> {
    Map::new(|key: Seq<u8>| table.holds(key), |key: Seq<u8>| docids_in(table.lookup(key)->0))
}

/// Every value of the table is a bitmap.
pub open spec fn holds_bitmaps(table: &KvTable) -> bool {
    forall|key: Seq<u8>|
        #[trigger] table.holds(key) ==> decoded_members(table.lookup(key)->0) is Some
}

/// The sets `sets`, with `value` added to the set of `key`.
pub open spec fn with_value(sets: Map<Seq<u8>, Set<u32>>, key: Seq<u8>, value: u32) -> Map<
    Seq<u8>,
    Set<u32>,
> {
    sets.insert(
        key,
        if sets.dom().contains(key) {
            sets[key].insert(value)
        } else {
            Set::empty().insert(value)
        },
    )
}

/// The positions of the words, after the postings were added.
pub open spec fn positions_after(sets: Map<Seq<u8>, Set<u32>>, postings: Seq<Posting>) -> Map<
    Seq<u8>,
    Set<u32>,
>
    decreases postings.len(),
{
    if postings.len() == 0 {
        sets
    } else {
        with_value(
            positions_after(sets, postings.drop_last()),
            postings.last().word,
            postings.last().position,
        )
    }
}

/// The documents of the words at their positions, after the postings of
/// the document `docid` were added.
pub open spec fn documents_after(
    sets: Map<Seq<u8>, Set<u32>>,
    postings: Seq<Posting>,
    docid: u32,
) -> Map<Seq<u8>, Set<u32>>
    decreases postings.len(),
{
    if postings.len() == 0 {
        sets
    } else {
        with_value(
            documents_after(sets, postings.drop_last(), docid),
            crate::index::posting_key(postings.last().word, postings.last().position),
            docid,
        )
    }
}

/// The bitmap that `table` keeps under `key`, or an empty one where it
/// keeps none, with `value` added.
fn bitmap_with(table: &KvTable, key: &[u8], value: u32) -> (bitmap: RoaringBitmap)
    requires
        table.wf(),
        holds_bitmaps(table),
    ensures
        members(&bitmap) == with_value(bitmaps_of(table), key@, value)[key@],
{
    let mut bitmap = match table.get_bitmap(key) {
        Ok(Some(bitmap)) => bitmap,
        Ok(None) => crate::bitmap::empty_bitmap(),
        Err(_) => {
            assert(table.holds(key@));
            vstd::pervasive::unreached()
        },
    };
    crate::bitmap::insert_into(&mut bitmap, value);
    bitmap
}

/// Adds `value` to the bitmap that `table` keeps under `key`.
fn add_to_bitmap(table: &mut KvTable, key: &[u8], value: u32)
    requires
        old(table).wf(),
        holds_bitmaps(old(table)),
    ensures
        final(table).wf(),
        holds_bitmaps(final(table)),
        bitmaps_of(final(table)) == with_value(bitmaps_of(old(table)), key@, value),
{
    let ghost before = *table;
    let bitmap = bitmap_with(table, key, value);
    table.put_bitmap(key, &bitmap);
    proof {
        assert forall|other: Seq<u8>| #[trigger]
            table.holds(other) implies decoded_members(table.lookup(other)->0) is Some by {
            if other != key@ {
                assert(before.lookup(other) == table.lookup(other));
                assert(before.holds(other));
            }
        }
        let wanted = with_value(bitmaps_of(&before), key@, value);
        assert forall|other: Seq<u8>| wanted.dom().contains(other) <==> bitmaps_of(
            table,
        ).dom().contains(other) by {
            if other != key@ {
                assert(before.lookup(other) == table.lookup(other));
            }
        }
        assert forall|other: Seq<u8>| wanted.dom().contains(other) implies wanted[other]
            == bitmaps_of(table)[other] by {
            if other != key@ {
                assert(before.lookup(other) == table.lookup(other));
            }
        }
        assert(bitmaps_of(table) =~= wanted);
    }
}

/// What was gathered from the records of one file.
pub struct Indexed {
    /// The set of the words, as `fst` writes it.
    pub fst: Vec<u8>,
    /// The positions of each word.
    pub postings_attrs: KvTable,
    /// The positions of the words that start with each prefix.
    pub prefix_postings_attrs: KvTable,
    /// The documents that have a word at a position.
    pub postings_ids: KvTable,
    /// The documents that have, at a position, a word that starts with a prefix.
    pub prefix_postings_ids: KvTable,
    /// The header of the records.
    pub headers: Vec<u8>,
    /// The record of each document, by its identifier.
    pub documents: KvTable,
}

impl Indexed {
    /// The tables have their keys in order, and those of the words hold
    /// bitmaps.
    pub open spec fn wf(&self) -> bool {
        &&& self.postings_attrs.wf()
        &&& self.prefix_postings_attrs.wf()
        &&& self.postings_ids.wf()
        &&& self.prefix_postings_ids.wf()
        &&& self.documents.wf()
        &&& holds_bitmaps(&self.postings_attrs)
        &&& holds_bitmaps(&self.postings_ids)
    }

    /// The table that is written under `tag`.
    pub open spec fn table(&self, tag: u8) -> KvTable {
        if tag == 1 {
            self.postings_attrs
        } else if tag == 2 {
            self.prefix_postings_attrs
        } else if tag == 3 {
            self.postings_ids
        } else if tag == 4 {
            self.prefix_postings_ids
        } else {
            self.documents
        }
    }

    /// Nothing gathered yet.
    pub fn new() -> (indexed: Indexed)
        ensures
            indexed.wf(),
            indexed.fst@.len() == 0,
            indexed.headers@.len() == 0,
            bitmaps_of(&indexed.postings_attrs) == Map::<Seq<u8>, Set<u32>>::empty(),
            bitmaps_of(&indexed.postings_ids) == Map::<Seq<u8>, Set<u32>>::empty(),
            forall|tag: u8, key: Seq<u8>| indexed.table(tag).lookup(key) is None,
    {
        let indexed = Indexed {
            fst: Vec::new(),
            postings_attrs: KvTable::new(),
            prefix_postings_attrs: KvTable::new(),
            postings_ids: KvTable::new(),
            prefix_postings_ids: KvTable::new(),
            headers: Vec::new(),
            documents: KvTable::new(),
        };
        proof {
            assert(bitmaps_of(&indexed.postings_attrs) =~= Map::<Seq<u8>, Set<u32>>::empty());
            assert(bitmaps_of(&indexed.postings_ids) =~= Map::<Seq<u8>, Set<u32>>::empty());
        }
        indexed
    }

    /// The set of the words that were gathered, as `fst` builds it; `None`
    /// where `fst` refuses them.
    pub fn words_set(&self) -> (set: Option<Vec<u8>>)
        requires
            self.wf(),
        ensures
            bytes_of(set) == fst_of_words(self.postings_attrs.keys()),
    {
        // We store the words from the postings.
        let mut new_words: Vec<Vec<u8>> = Vec::new();
        let mut at: usize = 0;
        while at < self.postings_attrs.len()
            invariant
                at <= self.postings_attrs.keys().len(),
                new_words@.len() == at,
                values_of(new_words@) == self.postings_attrs.keys().take(at as int),
            decreases self.postings_attrs.keys().len() - at,
        {
            let ghost before = new_words@;
            let ghost keys = self.postings_attrs.keys();
            new_words.push(copy_bytes(self.postings_attrs.key_at(at)));
            at += 1;
            proof {
                let now = values_of(new_words@);
                assert(now.len() == at);
                assert forall|i: int| 0 <= i < at implies now[i] == keys.take(at as int)[i] by {
                    if i < at - 1 {
                        assert(new_words@[i] == before[i]);
                        assert(values_of(before)[i] == keys.take(at - 1)[i]);
                    }
                }
                assert(now =~= keys.take(at as int));
            }
        }
        assert(self.postings_attrs.keys().take(at as int) =~= self.postings_attrs.keys());
        fst_from_words(new_words.as_slice())
    }

    /// Whether the set of words that is kept is the set of the words that
    /// were gathered.
    pub fn has_its_words(&self) -> (kept: bool)
        requires
            self.wf(),
        ensures
            kept == (fst_of_words(self.postings_attrs.keys()) == Some(self.fst@)),
    {
        match self.words_set() {
            Some(set) => is_same_bytes(set.as_slice(), self.fst.as_slice()),
            None => false,
        }
    }

    /// Writes the set of the words that were gathered, in place of the set
    /// that was kept. Returns whether `fst` could build the set; the set
    /// that was kept stays where it could not.
    pub fn store_words(&mut self) -> (stored: bool)
        requires
            old(self).wf(),
        ensures
            final(self).wf(),
            match fst_of_words(old(self).postings_attrs.keys()) {
                Some(bytes) => stored && final(self).fst@ == bytes,
                None => !stored && final(self).fst == old(self).fst,
            },
            final(self).headers == old(self).headers,
            final(self).documents == old(self).documents,
            final(self).postings_attrs == old(self).postings_attrs,
            final(self).postings_ids == old(self).postings_ids,
            final(self).prefix_postings_attrs == old(self).prefix_postings_attrs,
            final(self).prefix_postings_ids == old(self).prefix_postings_ids,
    {
        match self.words_set() {
            Some(bytes) => {
                self.fst = bytes;
                true
            },
            None => false,
        }
    }

    /// Adds one word of the document `docid`: `position` is added to the
    /// positions of `word`, and the document to the documents that have the
    /// word at this position.
    pub fn add_posting(&mut self, word: &[u8], position: u32, docid: u32) -> (done: Result<
        (),
        SearchError,
    >)
        requires
            old(self).wf(),
        ensures
            final(self).wf(),
            done is Ok,
            bitmaps_of(&final(self).postings_attrs) == with_value(
                bitmaps_of(&old(self).postings_attrs),
                word@,
                position,
            ),
            bitmaps_of(&final(self).postings_ids) == with_value(
                bitmaps_of(&old(self).postings_ids),
                crate::index::posting_key(word@, position),
                docid,
            ),
            final(self).fst == old(self).fst,
            final(self).headers == old(self).headers,
            final(self).documents == old(self).documents,
            final(self).prefix_postings_attrs == old(self).prefix_postings_attrs,
            final(self).prefix_postings_ids == old(self).prefix_postings_ids,
    {
        // We save the positions where this word has been seen.
        add_to_bitmap(&mut self.postings_attrs, word, position);
        // We save the documents ids under the position and word we have seen it.
        let key = Index::posting_key_of(word, position);
        add_to_bitmap(&mut self.postings_ids, key.as_slice(), docid);
        Ok(())
    }

    /// Keeps the record of the document `docid`, under the four bytes of
    /// its identifier, the most significant first, in place of a record
    /// that was kept for it.
    pub fn add_document(&mut self, docid: u32, record: Vec<u8>)
        requires
            old(self).wf(),
        ensures
            final(self).wf(),
            final(self).documents.lookup(crate::index::be_bytes(docid)) == Some(record@),
            forall|other: Seq<u8>|
                other != crate::index::be_bytes(docid) ==> final(self).documents.lookup(other)
                    == old(self).documents.lookup(other),
            final(self).fst == old(self).fst,
            final(self).headers == old(self).headers,
            final(self).postings_attrs == old(self).postings_attrs,
            final(self).postings_ids == old(self).postings_ids,
            final(self).prefix_postings_attrs == old(self).prefix_postings_attrs,
            final(self).prefix_postings_ids == old(self).prefix_postings_ids,
    {
        let mut key: Vec<u8> = Vec::new();
        crate::index::push_be(&mut key, docid);
        assert(key@ =~= crate::index::be_bytes(docid));
        self.documents.put(key.as_slice(), record);
    }

    /// Adds the words of one record: each attribute is cut into words, and
    /// each word that is kept is added in lowercase, at the place of its
    /// attribute times a thousand plus its own place.
    pub fn index_document(&mut self, docid: u32, fields: &Vec<String>) -> (done: Result<
        (),
        SearchError,
    >)
        requires
            old(self).wf(),
        ensures
            final(self).wf(),
            done is Ok,
            bitmaps_of(&final(self).postings_attrs) == positions_after(
                bitmaps_of(&old(self).postings_attrs),
                postings_of(texts_of(fields@)),
            ),
            bitmaps_of(&final(self).postings_ids) == documents_after(
                bitmaps_of(&old(self).postings_ids),
                postings_of(texts_of(fields@)),
                docid,
            ),
            final(self).fst == old(self).fst,
            final(self).headers == old(self).headers,
            final(self).documents == old(self).documents,
            final(self).prefix_postings_attrs == old(self).prefix_postings_attrs,
            final(self).prefix_postings_ids == old(self).prefix_postings_ids,
    {
        let ghost texts = texts_of(fields@);
        let ghost positions = bitmaps_of(&self.postings_attrs);
        let ghost documents = bitmaps_of(&self.postings_ids);
        let attributes: usize = if fields.len() < MAX_ATTRIBUTES {
            fields.len()
        } else {
            MAX_ATTRIBUTES
        };
        let mut attr: usize = 0;
        while attr < attributes
            invariant
                attr <= attributes <= fields@.len(),
                attributes <= MAX_ATTRIBUTES,
                texts == texts_of(fields@),
                self.wf(),
                bitmaps_of(&self.postings_attrs) == positions_after(
                    positions,
                    record_postings(texts, attr as int),
                ),
                bitmaps_of(&self.postings_ids) == documents_after(
                    documents,
                    record_postings(texts, attr as int),
                    docid,
                ),
                self.fst == old(self).fst,
                self.headers == old(self).headers,
                self.documents == old(self).documents,
                self.prefix_postings_attrs == old(self).prefix_postings_attrs,
                self.prefix_postings_ids == old(self).prefix_postings_ids,
            decreases attributes - attr,
        {
            let tokens = simple_alphanumeric_tokens(fields[attr].as_str());
            let ghost words = texts_of(tokens@);
            let ghost done = record_postings(texts, attr as int);
            assert(words == alphanumeric_tokens(texts[attr as int]));
            let kept: usize = if tokens.len() < MAX_POSITION {
                tokens.len()
            } else {
                MAX_POSITION
            };
            let mut pos: usize = 0;
            while pos < kept
                invariant
                    pos <= kept <= tokens@.len(),
                    kept <= MAX_POSITION,
                    attr < MAX_ATTRIBUTES,
                    words == texts_of(tokens@),
                    self.wf(),
                    bitmaps_of(&self.postings_attrs) == positions_after(
                        positions,
                        done + field_postings(words, attr as int, pos as int),
                    ),
                    bitmaps_of(&self.postings_ids) == documents_after(
                        documents,
                        done + field_postings(words, attr as int, pos as int),
                        docid,
                    ),
                    self.fst == old(self).fst,
                    self.headers == old(self).headers,
                    self.documents == old(self).documents,
                    self.prefix_postings_attrs == old(self).prefix_postings_attrs,
                    self.prefix_postings_ids == old(self).prefix_postings_ids,
                decreases kept - pos,
            {
                let word: &str = tokens[pos].as_str();
                assert(words[pos as int] == word@);
                let ghost so_far = done + field_postings(words, attr as int, pos as int);
                let bytes: &[u8] = word.as_bytes();
                assert(bytes@ == vstd::utf8::encode_utf8(word@));
                // LMDB limits
                if !word.is_empty() && bytes.len() < MAX_WORD_LENGTH {
                    let lowered = lowercase(word);
                    let position: u32 = (attr * 1000 + pos) as u32;
                    let _ = self.add_posting(lowered.as_str().as_bytes(), position, docid);
                    proof {
                        let posting = Posting {
                            word: vstd::utf8::encode_utf8(lowercase_of(word@)),
                            position,
                        };
                        let next = done + field_postings(words, attr as int, pos + 1);
                        assert(field_postings(words, attr as int, pos + 1) == field_postings(
                            words,
                            attr as int,
                            pos as int,
                        ).push(posting));
                        assert(next =~= so_far.push(posting));
                        assert(next.drop_last() =~= so_far);
                        assert(next.last() == posting);
                    }
                } else {
                    proof {
                        assert(field_postings(words, attr as int, pos + 1) == field_postings(
                            words,
                            attr as int,
                            pos as int,
                        ));
                    }
                }
                pos += 1;
            }
            proof {
                assert(record_postings(texts, attr + 1) == done + field_postings(
                    words,
                    attr as int,
                    words_kept(words),
                ));
                assert(done + field_postings(words, attr as int, 0) =~= done);
            }
            attr += 1;
        }
        Ok(())
    }
}

/// Different keys of a table are different keys of the store.
pub proof fn lemma_tagged_apart(tag: u8, a: Seq<u8>, b: Seq<u8>)
    requires
        a != b,
    ensures
        tagged(tag, a) != tagged(tag, b),
{
    let x = tagged(tag, a);
    let y = tagged(tag, b);
    if x == y {
        assert(x.len() == 1 + a.len() && y.len() == 1 + b.len());
        assert forall|i: int| 0 <= i < a.len() implies a[i] == b[i] by {
            assert(x[i + 1] == a[i]);
            assert(y[i + 1] == b[i]);
        }
        assert(a =~= b);
    }
}

/// Copies the entries of `table` into `store`, each under its key with
/// `tag` before it.
fn copy_table(store: &mut KvTable, tag: u8, table: &KvTable)
    requires
        old(store).wf(),
        table.wf(),
    ensures
        final(store).wf(),
        forall|key: Seq<u8>|
            #![trigger final(store).lookup(tagged(tag, key))]
            final(store).lookup(tagged(tag, key)) == if table.holds(key) {
                table.lookup(key)
            } else {
                old(store).lookup(tagged(tag, key))
            },
        forall|key: Seq<u8>|
            #![trigger final(store).lookup(key)]
            key.len() == 0 || key[0] != tag ==> final(store).lookup(key) == old(store).lookup(key),
{
    let mut at: usize = 0;
    while at < table.len()
        invariant
            at <= table.keys().len(),
            store.wf(),
            table.wf(),
            forall|key: Seq<u8>|
                #![trigger store.lookup(tagged(tag, key))]
                store.lookup(tagged(tag, key)) == if table.holds(key) && table.place_of(key)
                    < at {
                    table.lookup(key)
                } else {
                    old(store).lookup(tagged(tag, key))
                },
            forall|key: Seq<u8>|
                #![trigger store.lookup(key)]
                key.len() == 0 || key[0] != tag ==> store.lookup(key) == old(store).lookup(key),
        decreases table.keys().len() - at,
    {
        let key = tagged_key(tag, table.key_at(at));
        let value = copy_bytes(table.value_at(at));
        let ghost before = *store;
        let ghost here = table.keys()[at as int];
        store.put(key.as_slice(), value);
        proof {
            table.lemma_lookup_at(at as int);
            assert(table.holds(here));
            table.lemma_one_place(at as int, table.place_of(here));
            assert forall|other: Seq<u8>|
                #![trigger store.lookup(tagged(tag, other))]
                store.lookup(tagged(tag, other)) == if table.holds(other) && table.place_of(other)
                    < at + 1 {
                    table.lookup(other)
                } else {
                    old(store).lookup(tagged(tag, other))
                } by {
                if other == here {
                } else {
                    lemma_tagged_apart(tag, other, here);
                    assert(store.lookup(tagged(tag, other)) == before.lookup(tagged(tag, other)));
                    if table.holds(other) {
                        assert(table.place_of(other) != at) by {
                            assert(table.keys()[table.place_of(other)] == other);
                        }
                    }
                }
            }
            assert forall|other: Seq<u8>|
                #![trigger store.lookup(other)]
                other.len() == 0 || other[0] != tag implies store.lookup(other) == old(
                    store,
                ).lookup(other) by {
                assert(tagged(tag, here)[0] == tag);
                assert(store.lookup(other) == before.lookup(other));
            }
        }
        at += 1;
    }
    proof {
        assert forall|key: Seq<u8>|
            #![trigger store.lookup(tagged(tag, key))]
            store.lookup(tagged(tag, key)) == if table.holds(key) {
                table.lookup(key)
            } else {
                old(store).lookup(tagged(tag, key))
            } by {
            if table.holds(key) {
                assert(0 <= table.place_of(key) < table.keys().len());
            }
        }
    }
}

/// Whether `store` is what the indexer writes for what was gathered: the
/// header of the records and the set of the words under their keys, and
/// the entries of each table under their keys with the tag of the table
/// before them.
pub open spec fn is_store_of(store: &KvTable, indexed: &Indexed) -> bool {
    &&& store.wf()
    &&& store.lookup(headers_key()) == Some(indexed.headers@)
    &&& store.lookup(words_fst_key()) == Some(indexed.fst@)
    &&& forall|tag: u8, key: Seq<u8>|
        #![trigger store.lookup(tagged(tag, key))]
        1 <= tag <= 5 ==> store.lookup(tagged(tag, key)) == indexed.table(tag).lookup(key)
    &&& forall|key: Seq<u8>|
        #![trigger store.lookup(key)]
        destination(key) is None ==> store.lookup(key) is None
}

/// What the indexer writes for what was gathered: the header of the
/// records and the set of the words under their keys, and the entries of
/// each table under their keys with the tag of the table before them. The
/// keys come out in their order.
pub fn from_indexed(indexed: &Indexed) -> (store: KvTable)
    requires
        indexed.wf(),
    ensures
        is_store_of(&store, indexed),
        store.wf(),
        store.lookup(headers_key()) == Some(indexed.headers@),
        store.lookup(words_fst_key()) == Some(indexed.fst@),
        forall|tag: u8, key: Seq<u8>|
            #![trigger store.lookup(tagged(tag, key))]
            1 <= tag <= 5 ==> store.lookup(tagged(tag, key)) == indexed.table(tag).lookup(key),
        forall|key: Seq<u8>|
            #![trigger store.lookup(key)]
            destination(key) is None ==> store.lookup(key) is None,
{
    let mut store = KvTable::new();
    let headers = headers_key_bytes();
    let words_fst = words_fst_key_bytes();
    store.put(headers.as_slice(), copy_bytes(indexed.headers.as_slice()));
    store.put(words_fst.as_slice(), copy_bytes(indexed.fst.as_slice()));
    let ghost first = store;
    proof {
        assert forall|key: Seq<u8>| key != headers_key() && key != words_fst_key() implies (
        #[trigger] store.lookup(key)) is None by {}
        assert(headers_key()[0] == 0 && words_fst_key()[0] == 0);
    }
    // We must write the postings attrs
    copy_table(&mut store, 1, &indexed.postings_attrs);
    // We must write the prefix postings attrs
    copy_table(&mut store, 2, &indexed.prefix_postings_attrs);
    // We must write the postings ids
    copy_table(&mut store, 3, &indexed.postings_ids);
    // We must write the prefix postings ids
    copy_table(&mut store, 4, &indexed.prefix_postings_ids);
    // We must write the documents
    copy_table(&mut store, 5, &indexed.documents);
    proof {
        assert forall|tag: u8, key: Seq<u8>|
            #![trigger store.lookup(tagged(tag, key))]
            1 <= tag <= 5 implies store.lookup(tagged(tag, key)) == indexed.table(tag).lookup(
            key,
        ) by {
            let whole = tagged(tag, key);
            assert(whole[0] == tag);
            assert(first.lookup(whole) is None);
        }
        assert forall|key: Seq<u8>|
            #![trigger store.lookup(key)]
            destination(key) is None implies store.lookup(key) is None by {
            assert(key != headers_key() && key != words_fst_key());
            assert(first.lookup(key) is None);
            assert(key.len() == 0 || key[0] == 0 || key[0] > 5);
        }
    }
    store
}

/// The values that the first `upto` of `stores` keep under `key`, in the
/// order of the stores.
pub open spec fn values_under(stores: Seq<KvTable>, key: Seq<u8>, upto: int) -> Seq<Seq<u8>>
    decreases upto,
{
    if upto <= 0 || upto > stores.len() {
        Seq::empty()
    } else if stores[upto - 1].holds(key) {
        values_under(stores, key, upto - 1).push(stores[upto - 1].lookup(key)->Some_0)
    } else {
        values_under(stores, key, upto - 1)
    }
}

/// Whether the values that were written under `key` can be kept as one:
/// where there are several of them, they can be merged.
pub open spec fn can_keep(key: Seq<u8>, values: Seq<Seq<u8>>) -> bool {
    values.len() <= 1 || (can_merge(key, values) && (key == words_fst_key() ==> fst_union_of(
        values,
    ) is Some))
}

/// Whether `kept` is what is kept for the values that were written under
/// `key`: nothing where there is none, the value where there is one, and
/// the values merged where there are several.
pub open spec fn is_stored(key: Seq<u8>, values: Seq<Seq<u8>>, kept: Option<Seq<u8>>) -> bool {
    if values.len() == 0 {
        kept is None
    } else if values.len() == 1 {
        kept == Some(values[0])
    } else {
        kept is Some && can_merge(key, values) && is_merged(key, values, kept)
    }
}

/// Whether the tables are in order, and what each keeps under the key of
/// the words is a set of words that `fst` built.
pub open spec fn are_stores(stores: Seq<KvTable>) -> bool {
    &&& forall|i: int| 0 <= i < stores.len() ==> (#[trigger] stores[i]).wf()
    &&& forall|i: int|
        0 <= i < stores.len() && (#[trigger] stores[i]).holds(words_fst_key()) ==> is_word_set(
            stores[i].lookup(words_fst_key())->Some_0,
        )
}

/// Some table keeps a value under a key exactly where the values under the
/// key are not none; and the values under the key of the words are sets of
/// words.
proof fn lemma_values_under(stores: Seq<KvTable>, key: Seq<u8>, upto: int)
    requires
        0 <= upto <= stores.len(),
        are_stores(stores),
    ensures
        values_under(stores, key, upto).len() > 0 <==> exists|i: int|
            0 <= i < upto && (#[trigger] stores[i]).holds(key),
        key == words_fst_key() ==> are_word_sets(values_under(stores, key, upto)),
    decreases upto,
{
    if upto > 0 {
        lemma_values_under(stores, key, upto - 1);
        if stores[upto - 1].holds(key) {
            assert(values_under(stores, key, upto).len() > 0);
        } else if values_under(stores, key, upto).len() > 0 {
            let i = choose|i: int| 0 <= i < upto - 1 && (#[trigger] stores[i]).holds(key);
            assert(stores[i].holds(key));
        }
        if exists|i: int| 0 <= i < upto && (#[trigger] stores[i]).holds(key) {
            let i = choose|i: int| 0 <= i < upto && (#[trigger] stores[i]).holds(key);
            if i < upto - 1 {
                assert(stores[i].holds(key));
            }
        }
    }
}

/// The values that `stores` keep under `key`, in the order of the stores.
fn values_for(stores: &[KvTable], key: &[u8]) -> (values: Vec<Vec<u8>>)
    requires
        are_stores(stores@),
    ensures
        values_of(values@) == values_under(stores@, key@, stores@.len() as int),
{
    let mut values: Vec<Vec<u8>> = Vec::new();
    let mut at: usize = 0;
    assert(values_of(values@) =~= values_under(stores@, key@, 0));
    while at < stores.len()
        invariant
            at <= stores@.len(),
            are_stores(stores@),
            values_of(values@) == values_under(stores@, key@, at as int),
        decreases stores@.len() - at,
    {
        let ghost before = values@;
        match stores[at].get(key) {
            Some(bytes) => {
                values.push(copy_bytes(bytes));
                assert(values_of(values@) =~= values_of(before).push(bytes@));
            },
            None => {},
        }
        at += 1;
    }
    values
}

/// What is kept for `values`, which were written under `key`; `None`
/// where they cannot be kept as one.
fn kept_for(key: &[u8], values: &[Vec<u8>]) -> (kept: Option<Vec<u8>>)
    requires
        values@.len() > 0,
        key@ == words_fst_key() ==> are_word_sets(values_of(values@)),
    ensures
        match kept {
            Some(bytes) => is_stored(key@, values_of(values@), Some(bytes@)),
            None => !can_keep(key@, values_of(values@)),
        },
{
    let words_fst = words_fst_key_bytes();
    if values.len() == 1 {
        assert(values_of(values@)[0] == values@[0]@);
        Some(copy_bytes(values[0].as_slice()))
    } else if is_same_bytes(key, words_fst.as_slice()) {
        merge(key, values)
    } else {
        merge_checked(key, values)
    }
}

/// The table of what `stores` keep, a key once: under a key that one
/// table has, the value of that table; under a key that several have,
/// their values merged, in the order of the tables. `None` where the
/// values under some key cannot be merged.
pub fn merge_stores(stores: &[KvTable]) -> (merged: Option<KvTable>)
    requires
        are_stores(stores@),
    ensures
        match merged {
            Some(table) => {
                &&& table.wf()
                &&& forall|key: Seq<u8>|
                    is_stored(
                        key,
                        values_under(stores@, key, stores@.len() as int),
                        #[trigger] table.lookup(key),
                    )
            },
            None => exists|key: Seq<u8>|
                !can_keep(key, #[trigger] values_under(stores@, key, stores@.len() as int)),
        },
{
    let ghost count = stores@.len() as int;
    let mut out = KvTable::new();
    let mut at: usize = 0;
    while at < stores.len()
        invariant
            at <= stores@.len(),
            count == stores@.len(),
            are_stores(stores@),
            out.wf(),
            forall|key: Seq<u8>| #[trigger]
                out.holds(key) ==> is_stored(key, values_under(stores@, key, count), out.lookup(key)),
            forall|i: int, j: int|
                0 <= i < at && 0 <= j < stores@[i].keys().len() ==> out.holds(
                    #[trigger] stores@[i].keys()[j],
                ),
        decreases stores@.len() - at,
    {
        let store = &stores[at];
        let mut place: usize = 0;
        while place < store.len()
            invariant
                at < stores@.len(),
                count == stores@.len(),
                store == &stores@[at as int],
                place <= store.keys().len(),
                are_stores(stores@),
                out.wf(),
                forall|key: Seq<u8>| #[trigger]
                    out.holds(key) ==> is_stored(
                        key,
                        values_under(stores@, key, count),
                        out.lookup(key),
                    ),
                forall|i: int, j: int|
                    0 <= i < at && 0 <= j < stores@[i].keys().len() ==> out.holds(
                        #[trigger] stores@[i].keys()[j],
                    ),
                forall|j: int| 0 <= j < place ==> out.holds(#[trigger] store.keys()[j]),
            decreases store.keys().len() - place,
        {
            let key = store.key_at(place);
            if out.get(key).is_none() {
                let values = values_for(stores, key);
                proof {
                    lemma_values_under(stores@, key@, count);
                    assert(stores@[at as int].holds(key@));
                }
                let ghost before = out;
                match kept_for(key, values.as_slice()) {
                    None => {
                        return None;
                    },
                    Some(kept) => {
                        out.put(key, kept);
                    },
                }
                proof {
                    assert forall|other: Seq<u8>| before.holds(other) implies out.holds(other) by {
                        if other != key@ {
                            assert(out.lookup(other) == before.lookup(other));
                        }
                    }
                    assert forall|other: Seq<u8>| #[trigger] out.holds(other) implies is_stored(
                        other,
                        values_under(stores@, other, count),
                        out.lookup(other),
                    ) by {
                        if other != key@ {
                            assert(out.lookup(other) == before.lookup(other));
                            assert(before.holds(other));
                        }
                    }
                }
            }
            place += 1;
        }
        at += 1;
    }
    proof {
        assert forall|key: Seq<u8>|
            is_stored(key, values_under(stores@, key, count), #[trigger] out.lookup(key)) by {
            if !out.holds(key) {
                lemma_values_under(stores@, key, count);
                if values_under(stores@, key, count).len() > 0 {
                    let i = choose|i: int| 0 <= i < count && (#[trigger] stores@[i]).holds(key);
                    let j = stores@[i].place_of(key);
                    assert(out.holds(stores@[i].keys()[j]));
                }
            }
        }
    }
    Some(out)
}

/// Whether each of `stores` is what the indexer writes for the one of
/// `parts` at its place.
pub open spec fn are_stores_of(stores: Seq<KvTable>, parts: Seq<Indexed>) -> bool {
    &&& stores.len() == parts.len()
    &&& forall|i: int| 0 <= i < stores.len() ==> is_store_of(&#[trigger] stores[i], &parts[i])
}

/// Whether each of `parts` keeps the set of the words that it gathered.
pub open spec fn have_their_words(parts: Seq<Indexed>) -> bool {
    forall|i: int|
        0 <= i < parts.len() ==> fst_of_words((#[trigger] parts[i]).postings_attrs.keys()) == Some(
            parts[i].fst@,
        )
}

/// The table of what was gathered from several files, a key once: what
/// the indexer writes for each of `parts`, merged. `None` where one of
/// `parts` does not keep the set of the words that it gathered, or the
/// values under some key cannot be merged.
pub fn merge_indexed(parts: &[Indexed]) -> (merged: Option<KvTable>)
    requires
        forall|i: int| 0 <= i < parts@.len() ==> (#[trigger] parts@[i]).wf(),
    ensures
        match merged {
            Some(table) => {
                &&& table.wf()
                &&& have_their_words(parts@)
                &&& exists|stores: Seq<KvTable>|
                    {
                        &&& #[trigger] are_stores_of(stores, parts@)
                        &&& forall|key: Seq<u8>|
                            is_stored(
                                key,
                                values_under(stores, key, stores.len() as int),
                                #[trigger] table.lookup(key),
                            )
                    }
            },
            None => !have_their_words(parts@) || exists|stores: Seq<KvTable>, key: Seq<u8>|
                #[trigger] are_stores_of(stores, parts@) && !can_keep(
                    key,
                    #[trigger] values_under(stores, key, stores.len() as int),
                ),
        },
{
    let mut stores: Vec<KvTable> = Vec::new();
    let mut at: usize = 0;
    while at < parts.len()
        invariant
            at <= parts@.len(),
            stores@.len() == at,
            forall|i: int| 0 <= i < parts@.len() ==> (#[trigger] parts@[i]).wf(),
            forall|i: int| 0 <= i < at ==> is_store_of(&#[trigger] stores@[i], &parts@[i]),
            forall|i: int|
                0 <= i < at ==> fst_of_words((#[trigger] parts@[i]).postings_attrs.keys()) == Some(
                    parts@[i].fst@,
                ),
        decreases parts@.len() - at,
    {
        if !parts[at].has_its_words() {
            return None;
        }
        let store = from_indexed(&parts[at]);
        stores.push(store);
        at += 1;
    }
    proof {
        assert(are_stores_of(stores@, parts@));
        assert forall|i: int|
            0 <= i < stores@.len() && (#[trigger] stores@[i]).holds(
                words_fst_key(),
            ) implies is_word_set(stores@[i].lookup(words_fst_key())->Some_0) by {
            assert(is_store_of(&stores@[i], &parts@[i]));
            assert(fst_of_words(parts@[i].postings_attrs.keys()) == Some(parts@[i].fst@));
        }
        assert forall|i: int| 0 <= i < stores@.len() implies (#[trigger] stores@[i]).wf() by {
            assert(is_store_of(&stores@[i], &parts@[i]));
        }
    }
    merge_stores(stores.as_slice())
}

} // verus!

use milli::index::{push_be, Index};
use milli::indexer::{
    from_indexed, headers_key_bytes, is_word_char, merge, merge_checked, merge_indexed,
    merge_stores, route,
    simple_alphanumeric_tokens, tagged_key, tokens_of_groups, unite_words, untagged_key,
    words_fst_key_bytes, writer, Indexed, Table,
};
use milli::store::KvTable;
use roaring::RoaringBitmap;

fn bitmap(values: &[u32]) -> RoaringBitmap {
    let mut bitmap = RoaringBitmap::new();
    for value in values {
        bitmap.insert(*value);
    }
    bitmap
}

fn bytes(values: &[u32]) -> Vec<u8> {
    let mut bytes = Vec::new();
    let written = bitmap(values).serialize_into(&mut bytes);
    assert!(written.is_ok());
    bytes
}

fn read(bytes: &[u8]) -> Option<RoaringBitmap> {
    RoaringBitmap::deserialize_from(bytes).ok()
}

fn words_set(words: &[&str]) -> Vec<u8> {
    let set = fst::Set::from_iter(words.iter()).ok();
    assert!(set.is_some());
    set.map(|set| set.as_fst().as_bytes().to_vec()).unwrap_or_default()
}

fn words_of(bytes: &[u8]) -> Option<Vec<String>> {
    let set = fst::Set::new(bytes.to_vec()).ok()?;
    set.stream().into_strs().ok()
}

#[test]
fn keys_of_the_indexer() {
    assert_eq!(words_fst_key_bytes(), b"\0words-fst".to_vec());
    assert_eq!(headers_key_bytes(), b"\0headers".to_vec());
    assert_eq!(tagged_key(1, b"hello"), b"\x01hello".to_vec());
    assert_eq!(tagged_key(5, b""), vec![5]);
    assert_eq!(untagged_key(b"\x03hello"), b"hello".to_vec());
    assert_eq!(untagged_key(b"\x03"), Vec::<u8>::new());
}

#[test]
fn merge_bitmaps_of_one_key() {
    for tag in 1..=4u8 {
        let key = tagged_key(tag, b"hello");
        let merged = merge(&key, &[bytes(&[1, 2]), bytes(&[2, 70_000]), bytes(&[])]);
        assert_eq!(merged.as_deref().and_then(read), Some(bitmap(&[1, 2, 70_000])));
        let merged = merge(&key, &[bytes(&[5])]);
        assert_eq!(merged.as_deref().and_then(read), Some(bitmap(&[5])));
        let merged = merge_checked(&key, &[bytes(&[1, 2]), bytes(&[2, 70_000]), bytes(&[])]);
        assert_eq!(merged.as_deref().and_then(read), Some(bitmap(&[1, 2, 70_000])));
        assert_eq!(merge_checked(&key, &[bytes(&[5]), vec![1, 2, 3]]), None);
        assert_eq!(merge_checked(&key, &[]), None);
    }
}

#[test]
fn merge_sets_of_words() {
    let key = words_fst_key_bytes();
    let merged = merge(&key, &[words_set(&["black", "saint"]), words_set(&["lady", "saint"])]);
    assert_eq!(
        merged.as_deref().and_then(words_of),
        Some(vec!["black".to_string(), "lady".to_string(), "saint".to_string()])
    );
    let empty: [Vec<u8>; 0] = [];
    assert_eq!(merge(&key, &empty).as_deref().and_then(words_of), Some(Vec::new()));
    // sets of words cannot be told from other bytes
    assert_eq!(merge_checked(&key, &[words_set(&["black"])]), None);
}

#[test]
fn words_of_several_lists() {
    let list = |words: &[&str]| words.iter().map(|word| word.as_bytes().to_vec()).collect::<Vec<_>>();
    let united = unite_words(&[list(&["black", "saint"]), list(&["lady", "saint"]), list(&[])]);
    assert_eq!(
        united.as_deref().and_then(words_of),
        Some(vec!["black".to_string(), "lady".to_string(), "saint".to_string()])
    );
    assert_eq!(unite_words(&[]).as_deref().and_then(words_of), Some(Vec::new()));
    // words that are not in order make no set
    assert_eq!(unite_words(&[list(&["black"]), list(&["saint", "lady"])]), None);
}

#[test]
fn merge_headers_and_documents() {
    let headers = headers_key_bytes();
    assert_eq!(merge(&headers, &[b"id,title".to_vec(), b"id,title".to_vec()]), Some(b"id,title".to_vec()));
    assert_eq!(merge(&headers, &[b"id,title".to_vec()]), Some(b"id,title".to_vec()));
    assert_eq!(merge_checked(&headers, &[b"id,title".to_vec()]), Some(b"id,title".to_vec()));
    assert_eq!(merge_checked(&headers, &[b"id,title".to_vec(), b"id,name".to_vec()]), None);
    assert_eq!(merge_checked(&headers, &[]), None);
    let mut document = vec![5u8];
    push_be(&mut document, 42);
    assert_eq!(merge(&document, &[b"42,kind".to_vec(), b"42,kind".to_vec()]), Some(b"42,kind".to_vec()));
    assert_eq!(merge_checked(&document, &[b"42,kind".to_vec(), b"42,kind".to_vec()]), Some(b"42,kind".to_vec()));
    assert_eq!(merge_checked(&document, &[b"42,kind".to_vec(), b"42,blue".to_vec()]), None);
}

#[test]
fn merge_keys_of_no_table() {
    assert_eq!(merge_checked(b"", &[vec![1]]), None);
    assert_eq!(merge_checked(b"\x06abc", &[vec![1]]), None);
    assert_eq!(merge_checked(b"\0other", &[vec![1]]), None);
    assert_eq!(merge_checked(b"words-fst", &[vec![1]]), None);
}

#[test]
fn route_of_each_key() {
    assert_eq!(route(b"\0words-fst"), Some((Table::Main, b"words-fst".to_vec())));
    assert_eq!(route(b"\0headers"), Some((Table::Main, b"headers".to_vec())));
    assert_eq!(route(b"\x01hello"), Some((Table::PostingsAttrs, b"hello".to_vec())));
    assert_eq!(route(b"\x02he"), Some((Table::PrefixPostingsAttrs, b"he".to_vec())));
    assert_eq!(route(b"\x03hello\0\0\0\x01"), Some((Table::PostingsIds, b"hello\0\0\0\x01".to_vec())));
    assert_eq!(route(b"\x04he\0\0\0\x01"), Some((Table::PrefixPostingsIds, b"he\0\0\0\x01".to_vec())));
    assert_eq!(route(b"\x05\0\0\0\x2a"), Some((Table::Documents, b"\0\0\0\x2a".to_vec())));
    assert_eq!(route(b""), None);
    assert_eq!(route(b"\0"), None);
    assert_eq!(route(b"\0words"), None);
    assert_eq!(route(b"\x06x"), None);
}

#[test]
fn writer_fills_the_tables() {
    let mut index = Index::new();
    assert_eq!(writer(&mut index, b"\0words-fst", b"set"), Ok(()));
    assert_eq!(writer(&mut index, b"\0headers", b"id,title"), Ok(()));
    assert_eq!(writer(&mut index, b"\x01hello", &bytes(&[0, 1004])), Ok(()));
    assert_eq!(writer(&mut index, b"\x02he", b"prefix"), Ok(()));
    assert_eq!(writer(&mut index, &tagged_key(3, &Index::posting_key_of(b"hello", 0)), &bytes(&[7])), Ok(()));
    assert_eq!(writer(&mut index, b"\x04he\0\0\0\0", b"ids"), Ok(()));
    assert_eq!(writer(&mut index, b"\x05\0\0\0\x07", b"7,hello"), Ok(()));
    assert_eq!(writer(&mut index, b"\x09nothing", b"lost"), Ok(()));
    assert_eq!(index.main.get(b"words-fst"), Some(&b"set"[..]));
    assert_eq!(index.main.get(b"headers"), Some(&b"id,title"[..]));
    assert_eq!(index.main.len(), 2);
    assert_eq!(index.word_positions(b"hello"), Ok(Some(bitmap(&[0, 1004]))));
    assert_eq!(index.prefix_postings_attrs.get(b"he"), Some(&b"prefix"[..]));
    assert_eq!(index.word_docids(b"hello"), Ok(bitmap(&[7])));
    assert_eq!(index.prefix_postings_ids.get(b"he\0\0\0\0"), Some(&b"ids"[..]));
    assert_eq!(index.documents.get(b"\0\0\0\x07"), Some(&b"7,hello"[..]));
    assert_eq!(index.documents_ids(), Ok(bitmap(&[7])));
}

#[test]
fn words_of_a_text() {
    assert_eq!(simple_alphanumeric_tokens("The black saint, and the Sinner-Lady!"), vec![
        "The", "black", "saint", "and", "the", "Sinner", "Lady"
    ]);
    assert_eq!(simple_alphanumeric_tokens("  7000 danses / un jour  "), vec!["7000", "danses", "un", "jour"]);
    assert_eq!(simple_alphanumeric_tokens("l'été"), vec!["l", "été"]);
    assert_eq!(simple_alphanumeric_tokens(""), Vec::<String>::new());
    assert_eq!(simple_alphanumeric_tokens(" ,;! "), Vec::<String>::new());
    assert_eq!(simple_alphanumeric_tokens("one"), vec!["one"]);
}

#[test]
fn index_one_document() {
    let mut indexed = Indexed::new();
    let fields = vec!["The Black saint".to_string(), "black, BLACK".to_string()];
    assert_eq!(indexed.index_document(7, &fields), Ok(()));
    assert_eq!(indexed.postings_attrs.get_bitmap(b"the"), Ok(Some(bitmap(&[0]))));
    assert_eq!(indexed.postings_attrs.get_bitmap(b"black"), Ok(Some(bitmap(&[1, 1000, 1001]))));
    assert_eq!(indexed.postings_attrs.get_bitmap(b"saint"), Ok(Some(bitmap(&[2]))));
    assert_eq!(indexed.postings_attrs.get_bitmap(b"Black"), Ok(None));
    assert_eq!(indexed.postings_attrs.len(), 3);
    assert_eq!(indexed.postings_ids.get_bitmap(&Index::posting_key_of(b"black", 1000)), Ok(Some(bitmap(&[7]))));
    assert_eq!(indexed.postings_ids.len(), 5);
    assert_eq!(indexed.index_document(9, &vec!["a black".to_string()]), Ok(()));
    assert_eq!(indexed.postings_attrs.get_bitmap(b"black"), Ok(Some(bitmap(&[1, 1000, 1001]))));
    assert_eq!(indexed.postings_ids.get_bitmap(&Index::posting_key_of(b"black", 1)), Ok(Some(bitmap(&[7, 9]))));
    assert_eq!(indexed.postings_ids.get_bitmap(&Index::posting_key_of(b"a", 0)), Ok(Some(bitmap(&[9]))));
}

#[test]
fn index_keeps_a_thousand_words_of_an_attribute() {
    let mut indexed = Indexed::new();
    let long_word = "x".repeat(500);
    let mut content = String::new();
    for _ in 0..1001 {
        content.push_str("w ");
    }
    let fields = vec![format!("{} ok {}", long_word, "y".repeat(499)), content];
    assert_eq!(indexed.index_document(1, &fields), Ok(()));
    // the word that is too long keeps its place, and is left out
    assert_eq!(indexed.postings_attrs.get_bitmap(long_word.as_bytes()), Ok(None));
    assert_eq!(indexed.postings_attrs.get_bitmap(b"ok"), Ok(Some(bitmap(&[1]))));
    assert_eq!(indexed.postings_attrs.get_bitmap("y".repeat(499).as_bytes()), Ok(Some(bitmap(&[2]))));
    let positions = indexed.postings_attrs.get_bitmap(b"w").ok().flatten().unwrap_or_default();
    assert_eq!(positions.len(), 1000);
    assert_eq!(positions.min(), Some(1000));
    assert_eq!(positions.max(), Some(1999));
}

#[test]
fn add_one_posting() {
    let mut indexed = Indexed::new();
    assert_eq!(indexed.add_posting(b"hello", 1004, 3), Ok(()));
    assert_eq!(indexed.add_posting(b"hello", 2, 3), Ok(()));
    assert_eq!(indexed.add_posting(b"hello", 2, 4), Ok(()));
    assert_eq!(indexed.postings_attrs.get_bitmap(b"hello"), Ok(Some(bitmap(&[2, 1004]))));
    assert_eq!(indexed.postings_ids.get_bitmap(&Index::posting_key_of(b"hello", 2)), Ok(Some(bitmap(&[3, 4]))));
    assert_eq!(indexed.postings_ids.get_bitmap(&Index::posting_key_of(b"hello", 1004)), Ok(Some(bitmap(&[3]))));
}

#[test]
fn store_of_what_was_indexed() {
    let mut indexed = Indexed::new();
    assert_eq!(indexed.index_document(7, &vec!["The black saint".to_string()]), Ok(()));
    assert_eq!(indexed.index_document(8, &vec!["black".to_string()]), Ok(()));
    indexed.headers = b"title".to_vec();
    let mut key = Vec::new();
    push_be(&mut key, 7);
    indexed.documents.put(&key, b"The black saint".to_vec());
    indexed.prefix_postings_attrs.put(b"bl", bytes(&[1]));
    assert!(indexed.store_words());
    assert_eq!(
        words_of(&indexed.fst),
        Some(vec!["black".to_string(), "saint".to_string(), "the".to_string()])
    );

    let store = from_indexed(&indexed);
    assert_eq!(store.len(), 2 + 3 + 1 + 4 + 1);
    assert_eq!(store.get(b"\0headers"), Some(&b"title"[..]));
    assert_eq!(store.get(b"\0words-fst"), Some(&indexed.fst[..]));
    assert_eq!(store.get_bitmap(b"\x01black"), Ok(Some(bitmap(&[0, 1]))));
    assert_eq!(store.get_bitmap(b"\x02bl"), Ok(Some(bitmap(&[1]))));
    assert_eq!(store.get_bitmap(&tagged_key(3, &Index::posting_key_of(b"black", 0))), Ok(Some(bitmap(&[8]))));
    assert_eq!(store.get_bitmap(&tagged_key(3, &Index::posting_key_of(b"black", 1))), Ok(Some(bitmap(&[7]))));
    assert_eq!(store.get(b"\x05\0\0\0\x07"), Some(&b"The black saint"[..]));
    assert_eq!(store.get(b"\x01white"), None);
    // the keys come out in their order
    for place in 1..store.len() {
        assert!(store.key_at(place - 1) < store.key_at(place));
    }

    // what was written is what a search reads
    let mut index = Index::new();
    for place in 0..store.len() {
        assert_eq!(writer(&mut index, store.key_at(place), store.value_at(place)), Ok(()));
    }
    assert_eq!(index.word_docids(b"black"), Ok(bitmap(&[7, 8])));
    assert_eq!(index.word_positions(b"saint"), Ok(Some(bitmap(&[2]))));
    assert_eq!(index.documents_ids(), Ok(bitmap(&[7])));
}

#[test]
fn record_of_a_document() {
    let mut indexed = Indexed::new();
    indexed.add_document(258, b"258,first".to_vec());
    indexed.add_document(7, b"7,other".to_vec());
    indexed.add_document(258, b"258,second".to_vec());
    assert_eq!(indexed.documents.len(), 2);
    assert_eq!(indexed.documents.get(&[0, 0, 1, 2]), Some(&b"258,second"[..]));
    assert_eq!(indexed.documents.get(&[0, 0, 0, 7]), Some(&b"7,other"[..]));
    let store = from_indexed(&indexed);
    assert_eq!(store.get(&[5, 0, 0, 1, 2]), Some(&b"258,second"[..]));
}

#[test]
fn groups_that_are_words() {
    let groups: Vec<String> = ["hello", ", ", "w0rld", "!", "", "42"].iter().map(|group| group.to_string()).collect();
    assert_eq!(tokens_of_groups(&groups), vec!["hello".to_string(), "w0rld".to_string(), "42".to_string()]);
    assert_eq!(tokens_of_groups(&[]), Vec::<String>::new());
    assert!(is_word_char('a') && is_word_char('7') && is_word_char('é'));
    assert!(!is_word_char(' ') && !is_word_char('-') && !is_word_char('_'));
}

#[test]
fn stores_merged_by_key() {
    let mut first = Indexed::new();
    first.headers = b"id,title".to_vec();
    assert_eq!(first.index_document(1, &vec!["black saint".to_string()]), Ok(()));
    first.add_document(1, b"1,black saint".to_vec());
    assert!(first.store_words());
    let mut second = Indexed::new();
    second.headers = b"id,title".to_vec();
    assert_eq!(second.index_document(2, &vec!["sinner lady black".to_string()]), Ok(()));
    second.add_document(2, b"2,sinner lady black".to_vec());
    assert!(second.store_words());

    let merged = merge_stores(&[from_indexed(&first), from_indexed(&second)]);
    assert!(merged.is_some());
    let merged = merged.unwrap_or_else(KvTable::new);
    assert_eq!(merged.get(&headers_key_bytes()), Some(&b"id,title"[..]));
    assert_eq!(
        merged.get(&words_fst_key_bytes()).and_then(words_of),
        Some(vec!["black".to_string(), "lady".to_string(), "saint".to_string(), "sinner".to_string()])
    );
    // the positions of a word that both have are united
    assert_eq!(merged.get(&tagged_key(1, b"black")).and_then(read), Some(bitmap(&[0, 2])));
    assert_eq!(merged.get(&tagged_key(1, b"saint")).and_then(read), Some(bitmap(&[1])));
    let mut key = vec![3u8];
    key.extend_from_slice(&Index::posting_key_of(b"black", 2));
    assert_eq!(merged.get(&key).and_then(read), Some(bitmap(&[2])));
    assert_eq!(merged.get(&[5, 0, 0, 0, 1]), Some(&b"1,black saint"[..]));
    assert_eq!(merged.get(&[5, 0, 0, 0, 2]), Some(&b"2,sinner lady black"[..]));
    // the keys come once, in their order
    for place in 1..merged.len() {
        assert!(merged.key_at(place - 1) < merged.key_at(place));
    }

    // one store alone is kept as it is
    let alone = merge_stores(&[from_indexed(&first)]).unwrap_or_else(KvTable::new);
    assert_eq!(alone.len(), from_indexed(&first).len());
    assert_eq!(merge_stores(&[]).map(|table| table.len()), Some(0));

    // headers that differ cannot be merged
    second.headers = b"id,name".to_vec();
    assert!(merge_stores(&[from_indexed(&first), from_indexed(&second)]).is_none());
}

#[test]
fn parts_merged_into_one_table() {
    let mut first = Indexed::new();
    first.headers = b"id,title".to_vec();
    assert_eq!(first.index_document(1, &vec!["black saint".to_string()]), Ok(()));
    first.add_document(1, b"1,black saint".to_vec());
    let mut second = Indexed::new();
    second.headers = b"id,title".to_vec();
    assert_eq!(second.index_document(2, &vec!["sinner lady".to_string()]), Ok(()));
    second.add_document(2, b"2,sinner lady".to_vec());

    // the words were gathered, and their set is not written yet
    assert!(!first.has_its_words());
    assert_eq!(first.words_set().as_deref().and_then(words_of), Some(vec!["black".to_string(), "saint".to_string()]));
    assert!(first.store_words());
    assert!(first.has_its_words());
    let parts = vec![first, second];
    assert!(merge_indexed(&parts).is_none());

    let mut parts = parts;
    for part in parts.iter_mut() {
        assert!(part.store_words());
    }
    let merged = merge_indexed(&parts);
    assert!(merged.is_some());
    let merged = merged.unwrap_or_else(KvTable::new);
    assert_eq!(
        merged.get(&words_fst_key_bytes()).and_then(words_of),
        Some(vec!["black".to_string(), "lady".to_string(), "saint".to_string(), "sinner".to_string()])
    );
    assert_eq!(merged.get(&headers_key_bytes()), Some(&b"id,title"[..]));
    assert_eq!(merged.get(&[5, 0, 0, 0, 2]), Some(&b"2,sinner lady"[..]));
    assert_eq!(merged.get(&tagged_key(1, b"lady")).and_then(read), Some(bitmap(&[1])));
    assert_eq!(merge_indexed(&[]).map(|table| table.len()), Some(0));
}

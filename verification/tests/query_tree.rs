use milli::error::SearchError;
use milli::index::Index;
use milli::phrase::resolve_phrase;
use milli::query_tree::{
    copy_operation, resolve_query_tree, same_operation, Derivation, Operation, ResolveCache,
    WordDerivations, WordDerivationsCache,
};
use roaring::RoaringBitmap;

fn bitmap(values: &[u32]) -> RoaringBitmap {
    let mut bitmap = RoaringBitmap::new();
    for value in values {
        bitmap.insert(*value);
    }
    bitmap
}

fn word(text: &str) -> Operation {
    Operation::Word(text.as_bytes().to_vec())
}

fn phrase(words: &[&str]) -> Operation {
    Operation::Phrase(words.iter().map(|word| word.as_bytes().to_vec()).collect())
}

/// Adds a document: its words, one attribute after the other.
fn add_document(index: &mut Index, docid: u32, attributes: &[&str]) {
    for (attr, content) in attributes.iter().enumerate() {
        for (pos, word) in content.split_whitespace().enumerate() {
            let position = (attr * 1000 + pos) as u32;
            let mut positions = index.word_positions(word.as_bytes()).ok().flatten().unwrap_or_default();
            positions.insert(position);
            assert!(index.postings_attrs.put_bitmap(word.as_bytes(), &positions));
            let key = Index::posting_key_of(word.as_bytes(), position);
            let mut docids = index.postings_ids.get_bitmap(&key).ok().flatten().unwrap_or_default();
            docids.insert(docid);
            assert!(index.postings_ids.put_bitmap(&key, &docids));
        }
    }
}

fn library() -> Index {
    let mut index = Index::new();
    add_document(&mut index, 1, &["the black saint", "and the sinner lady"]);
    add_document(&mut index, 2, &["black is the colour", "of my true love"]);
    add_document(&mut index, 3, &["the saint", "black market"]);
    add_document(&mut index, 4, &["saint black the", "lady"]);
    add_document(&mut index, 5, &["a love supreme", "the lady"]);
    index
}

fn resolve(index: &Index, tree: &Operation, near: &WordDerivationsCache) -> Result<RoaringBitmap, SearchError> {
    let mut cache = ResolveCache::new();
    resolve_query_tree(index, tree, &mut cache, near)
}

#[test]
fn resolve_a_word() {
    let index = library();
    let near = WordDerivationsCache::new();
    assert_eq!(resolve(&index, &word("black"), &near), Ok(bitmap(&[1, 2, 3, 4])));
    assert_eq!(resolve(&index, &word("lady"), &near), Ok(bitmap(&[1, 4, 5])));
    assert_eq!(resolve(&index, &word("blac"), &near), Ok(RoaringBitmap::new()));
    assert_eq!(resolve(&index, &word("blacks"), &near), Ok(RoaringBitmap::new()));
}

#[test]
fn resolve_and_or() {
    let index = library();
    let near = WordDerivationsCache::new();
    let both = Operation::And(vec![word("black"), word("saint")]);
    assert_eq!(resolve(&index, &both, &near), Ok(bitmap(&[1, 3, 4])));
    let three = Operation::And(vec![word("black"), word("saint"), word("lady")]);
    assert_eq!(resolve(&index, &three, &near), Ok(bitmap(&[1, 4])));
    let either = Operation::Or(vec![word("love"), word("sinner")]);
    assert_eq!(resolve(&index, &either, &near), Ok(bitmap(&[1, 2, 5])));
    let nested = Operation::And(vec![
        Operation::Or(vec![word("saint"), word("love")]),
        Operation::Or(vec![word("lady"), word("colour")]),
    ]);
    assert_eq!(resolve(&index, &nested, &near), Ok(bitmap(&[1, 2, 4, 5])));
    assert_eq!(resolve(&index, &Operation::And(vec![]), &near), Ok(RoaringBitmap::new()));
    assert_eq!(resolve(&index, &Operation::Or(vec![]), &near), Ok(RoaringBitmap::new()));
    let none = Operation::And(vec![word("black"), word("supreme")]);
    assert_eq!(resolve(&index, &none, &near), Ok(RoaringBitmap::new()));
}

#[test]
fn resolve_a_tolerant_word() {
    let index = library();
    let mut near = WordDerivationsCache::new();
    let tolerant = Operation::TolerantWord(b"saimt".to_vec(), 1);
    // nothing is known to be near the word
    assert_eq!(resolve(&index, &tolerant, &near), Ok(RoaringBitmap::new()));
    near.entries.push(WordDerivations {
        word: b"saimt".to_vec(),
        max_typos: 2,
        is_prefix: false,
        derived: vec![Derivation { word: b"love".to_vec(), distance: 2 }],
    });
    near.entries.push(WordDerivations {
        word: b"saimt".to_vec(),
        max_typos: 1,
        is_prefix: true,
        derived: vec![Derivation { word: b"love".to_vec(), distance: 1 }],
    });
    near.entries.push(WordDerivations {
        word: b"saimt".to_vec(),
        max_typos: 1,
        is_prefix: false,
        derived: vec![
            Derivation { word: b"saint".to_vec(), distance: 1 },
            Derivation { word: b"sinner".to_vec(), distance: 1 },
        ],
    });
    assert_eq!(near.find(b"saimt", 1, false), Some(2));
    assert_eq!(near.find(b"saimt", 0, false), None);
    assert_eq!(resolve(&index, &tolerant, &near), Ok(bitmap(&[1, 3, 4])));
    let two = Operation::TolerantWord(b"saimt".to_vec(), 2);
    assert_eq!(resolve(&index, &two, &near), Ok(bitmap(&[2, 5])));
}

#[test]
fn resolve_a_phrase() {
    let index = library();
    let near = WordDerivationsCache::new();
    assert_eq!(resolve(&index, &phrase(&["black", "saint"]), &near), Ok(bitmap(&[1])));
    assert_eq!(resolve(&index, &phrase(&["saint", "black"]), &near), Ok(bitmap(&[4])));
    assert_eq!(resolve(&index, &phrase(&["the", "black", "saint"]), &near), Ok(bitmap(&[1])));
    assert_eq!(resolve(&index, &phrase(&["the", "lady"]), &near), Ok(bitmap(&[5])));
    // the end of an attribute is not next to the start of the following one
    assert_eq!(resolve(&index, &phrase(&["saint", "and"]), &near), Ok(RoaringBitmap::new()));
    assert_eq!(resolve(&index, &phrase(&["the"]), &near), Ok(bitmap(&[1, 2, 3, 4, 5])));
    assert_eq!(resolve(&index, &phrase(&[]), &near), Ok(RoaringBitmap::new()));
    assert_eq!(resolve(&index, &phrase(&["black", "cat"]), &near), Ok(RoaringBitmap::new()));
    let words: Vec<Vec<u8>> = vec![b"true".to_vec(), b"love".to_vec()];
    assert_eq!(resolve_phrase(&index, &words), Ok(bitmap(&[2])));
}

#[test]
fn a_phrase_longer_than_an_attribute() {
    let mut index = Index::new();
    add_document(&mut index, 1, &["a a a"]);
    let words: Vec<&str> = vec!["a"; 1001];
    assert_eq!(resolve(&index, &phrase(&words), &WordDerivationsCache::new()), Ok(RoaringBitmap::new()));
    assert_eq!(resolve(&index, &phrase(&["a", "a", "a"]), &WordDerivationsCache::new()), Ok(bitmap(&[1])));
    assert_eq!(resolve(&index, &phrase(&["a", "a", "a", "a"]), &WordDerivationsCache::new()), Ok(RoaringBitmap::new()));
}

#[test]
fn resolve_meets_a_bitmap_that_cannot_be_read() {
    let mut index = library();
    index.postings_ids.put(&Index::posting_key_of(b"lady", 77), vec![1, 2, 3]);
    let near = WordDerivationsCache::new();
    assert_eq!(resolve(&index, &word("lady"), &near), Err(SearchError::Bitmap));
    let both = Operation::And(vec![word("black"), word("lady")]);
    assert_eq!(resolve(&index, &both, &near), Err(SearchError::Bitmap));
    let either = Operation::Or(vec![word("black"), word("lady")]);
    assert_eq!(resolve(&index, &either, &near), Err(SearchError::Bitmap));
    assert_eq!(resolve(&index, &word("black"), &near), Ok(bitmap(&[1, 2, 3, 4])));
    index.postings_attrs.put(b"saint", vec![9]);
    assert_eq!(resolve(&index, &phrase(&["black", "saint"]), &near), Err(SearchError::Bitmap));
}

#[test]
fn resolve_twice_reads_once() {
    let mut index = library();
    let near = WordDerivationsCache::new();
    let tree = Operation::And(vec![word("black"), Operation::Or(vec![word("saint"), word("love")])]);
    let mut cache = ResolveCache::new();
    let first = resolve_query_tree(&index, &tree, &mut cache, &near);
    assert_eq!(first, Ok(bitmap(&[1, 2, 3, 4])));
    // the index is spoilt: whatever is resolved again comes from what was kept
    index.postings_ids = milli::store::KvTable::new();
    let second = resolve_query_tree(&index, &tree, &mut cache, &near);
    assert_eq!(second, first);
    assert_eq!(resolve_query_tree(&index, &word("black"), &mut cache, &near), Ok(bitmap(&[1, 2, 3, 4])));
    let branch = Operation::Or(vec![word("saint"), word("love")]);
    assert_eq!(resolve_query_tree(&index, &branch, &mut cache, &near), Ok(bitmap(&[1, 2, 3, 4, 5])));
    // what was not resolved before is read now
    assert_eq!(resolve_query_tree(&index, &word("lady"), &mut cache, &near), Ok(RoaringBitmap::new()));
}

#[test]
fn trees_are_compared_and_copied() {
    let tree = Operation::And(vec![
        word("black"),
        Operation::Or(vec![phrase(&["the", "saint"]), Operation::TolerantWord(b"lady".to_vec(), 1)]),
    ]);
    let copy = copy_operation(&tree);
    assert!(same_operation(&tree, &copy));
    assert!(!same_operation(&tree, &word("black")));
    assert!(!same_operation(&word("black"), &word("blac")));
    assert!(!same_operation(&Operation::And(vec![word("a")]), &Operation::Or(vec![word("a")])));
    assert!(!same_operation(&Operation::And(vec![word("a")]), &Operation::And(vec![word("a"), word("a")])));
    assert!(!same_operation(
        &Operation::TolerantWord(b"lady".to_vec(), 1),
        &Operation::TolerantWord(b"lady".to_vec(), 2)
    ));
    assert!(!same_operation(&phrase(&["a", "b"]), &phrase(&["b", "a"])));
    assert!(same_operation(&phrase(&[]), &phrase(&[])));
}

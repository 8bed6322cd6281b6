//! The tree of a query, and the documents that it matches.

use roaring::RoaringBitmap;
use vstd::prelude::*;

use crate::bitmap::{copy_bitmap, empty_bitmap, intersect_with, members, union_with};
use crate::error::SearchError;
use crate::index::Index;
use crate::phrase::{phrase_fails, phrase_members, resolve_phrase};
use crate::store::{copy_bytes, is_same_bytes};

verus! {

/// One node of the tree of a query.
#[derive(Debug)]
pub enum Operation {
    /// The documents that match every branch.
    And(Vec<Operation>),
    /// The documents that match some branch.
    Or(Vec<Operation>),
    /// The documents that have the word.
    Word(Vec<u8>),
    /// The documents that have a word within so many typos of the word.
    TolerantWord(Vec<u8>, u8),
    /// The documents that have the words one after the other.
    Phrase(Vec<Vec<u8>>),
}

/// A tree of a query, with its words as sequences of bytes.
pub enum OperationModel {
    And(Seq<OperationModel>),
    Or(Seq<OperationModel>),
    Word(Seq<u8>),
    TolerantWord(Seq<u8>, u8),
    Phrase(Seq<Seq<u8>>),
}

/// The words of a vector of words.
pub open spec fn words_of(words: Seq<Vec<u8>>) -> Seq<Seq<u8>> {
    Seq::new(words.len(), |i: int| words[i]@)
}

/// What a tree stands for.
pub open spec fn model_of(tree: Operation) -> OperationModel
    decreases tree,
{
    match tree {
        Operation::And(branches) => OperationModel::And(
            Seq::new(
                branches@.len(),
                |i: int|
                    if 0 <= i < branches@.len() {
                        model_of(branches@[i])
                    } else {
                        OperationModel::Word(Seq::empty())
                    },
            ),
        ),
        Operation::Or(branches) => OperationModel::Or(
            Seq::new(
                branches@.len(),
                |i: int|
                    if 0 <= i < branches@.len() {
                        model_of(branches@[i])
                    } else {
                        OperationModel::Word(Seq::empty())
                    },
            ),
        ),
        Operation::Word(word) => OperationModel::Word(word@),
        Operation::TolerantWord(word, max_typos) => OperationModel::TolerantWord(word@, max_typos),
        Operation::Phrase(words) => OperationModel::Phrase(words_of(words@)),
    }
}

/// The words that were found near a word.
pub struct WordDerivations {
    pub word: Vec<u8>,
    pub max_typos: u8,
    pub is_prefix: bool,
    /// The words found, each with its distance from `word`.
    pub derived: Vec<Derivation>,
}

/// A word found near another, with its distance from it.
pub struct Derivation {
    pub word: Vec<u8>,
    pub distance: u8,
}

/// The words near the words of a query, kept for the time of a search.
pub struct WordDerivationsCache {
    pub entries: Vec<WordDerivations>,
}

/// The place of the first entry for a word, or the number of entries where
/// there is none.
pub open spec fn derivations_place(
    entries: Seq<WordDerivations>,
    word: Seq<u8>,
    max_typos: u8,
    is_prefix: bool,
    from: int,
) -> int
    decreases entries.len() - from,
{
    if from < 0 || from >= entries.len() {
        entries.len() as int
    } else if entries[from].word@ == word && entries[from].max_typos == max_typos
        && entries[from].is_prefix == is_prefix {
        from
    } else {
        derivations_place(entries, word, max_typos, is_prefix, from + 1)
    }
}

impl WordDerivationsCache {
    /// The words kept as near `word`: those of the first entry for it, and
    /// none where there is no entry.
    pub open spec fn derived(&self, word: Seq<u8>, max_typos: u8, is_prefix: bool) -> Seq<Seq<u8>> {
        let place = derivations_place(self.entries@, word, max_typos, is_prefix, 0);
        if place < self.entries@.len() {
            Seq::new(
                self.entries@[place].derived@.len(),
                |j: int| self.entries@[place].derived@[j].word@,
            )
        } else {
            Seq::empty()
        }
    }

    /// A cache without entries.
    pub fn new() -> (cache: WordDerivationsCache)
        ensures
            forall|word: Seq<u8>, max_typos: u8, is_prefix: bool|
                cache.derived(word, max_typos, is_prefix) == Seq::<Seq<u8>>::empty(),
    {
        WordDerivationsCache { entries: Vec::new() }
    }

    /// The place of the first entry for `word`.
    pub fn find(&self, word: &[u8], max_typos: u8, is_prefix: bool) -> (place: Option<usize>)
        ensures
            match place {
                Some(index) => index < self.entries@.len() && index == derivations_place(
                    self.entries@,
                    word@,
                    max_typos,
                    is_prefix,
                    0,
                ),
                None => derivations_place(self.entries@, word@, max_typos, is_prefix, 0)
                    == self.entries@.len(),
            },
    {
        let mut at: usize = 0;
        while at < self.entries.len()
            invariant
                at <= self.entries@.len(),
                derivations_place(self.entries@, word@, max_typos, is_prefix, 0)
                    == derivations_place(self.entries@, word@, max_typos, is_prefix, at as int),
            decreases self.entries@.len() - at,
        {
            let entry = &self.entries[at];
            if entry.max_typos == max_typos && entry.is_prefix == is_prefix && is_same_bytes(
                entry.word.as_slice(),
                word,
            ) {
                return Some(at);
            }
            at += 1;
        }
        None
    }
}

/// Some bitmap of the documents of one of `words` cannot be read.
pub open spec fn near_fails(index: &Index, words: Seq<Seq<u8>>) -> bool {
    exists|j: int| 0 <= j < words.len() && index.word_fails(#[trigger] words[j])
}

/// The documents that have one of `words`.
pub open spec fn near_members(index: &Index, words: Seq<Seq<u8>>) -> Set<u32> {
    Set::new(
        |d: u32|
            exists|j: int| 0 <= j < words.len() && index.word_members(#[trigger] words[j]).contains(d),
    )
}

/// Some bitmap that a tree needs cannot be read.
pub open spec fn fails(index: &Index, near: &WordDerivationsCache, tree: OperationModel) -> bool
    decreases tree, 0int,
{
    match tree {
        OperationModel::And(branches) => some_fails(index, near, branches, branches.len() as int),
        OperationModel::Or(branches) => some_fails(index, near, branches, branches.len() as int),
        OperationModel::Word(word) => index.word_fails(word),
        OperationModel::TolerantWord(word, max_typos) => near_fails(
            index,
            near.derived(word, max_typos, false),
        ),
        OperationModel::Phrase(words) => phrase_fails(index, words),
    }
}

/// One of the first `upto` branches fails.
pub open spec fn some_fails(
    index: &Index,
    near: &WordDerivationsCache,
    branches: Seq<OperationModel>,
    upto: int,
) -> bool
    decreases branches, upto,
{
    if 0 < upto <= branches.len() {
        some_fails(index, near, branches, upto - 1) || fails(index, near, branches[upto - 1])
    } else {
        false
    }
}

/// The tree matches the document: every branch of an `And` that has
/// branches does, or some branch of an `Or`; the document has the word, or
/// one of the words near it, or the words of the phrase one after the other.
pub open spec fn has_match(
    index: &Index,
    near: &WordDerivationsCache,
    tree: OperationModel,
    d: u32,
) -> bool
    decreases tree, 0int,
{
    match tree {
        OperationModel::And(branches) => branches.len() > 0 && all_match(
            index,
            near,
            branches,
            branches.len() as int,
            d,
        ),
        OperationModel::Or(branches) => some_match(index, near, branches, branches.len() as int, d),
        OperationModel::Word(word) => index.word_members(word).contains(d),
        OperationModel::TolerantWord(word, max_typos) => near_members(
            index,
            near.derived(word, max_typos, false),
        ).contains(d),
        OperationModel::Phrase(words) => phrase_members(index, words).contains(d),
    }
}

/// Each of the first `upto` branches matches the document.
pub open spec fn all_match(
    index: &Index,
    near: &WordDerivationsCache,
    branches: Seq<OperationModel>,
    upto: int,
    d: u32,
) -> bool
    decreases branches, upto,
{
    if 0 < upto <= branches.len() {
        all_match(index, near, branches, upto - 1, d) && has_match(
            index,
            near,
            branches[upto - 1],
            d,
        )
    } else {
        true
    }
}

/// One of the first `upto` branches matches the document.
pub open spec fn some_match(
    index: &Index,
    near: &WordDerivationsCache,
    branches: Seq<OperationModel>,
    upto: int,
    d: u32,
) -> bool
    decreases branches, upto,
{
    if 0 < upto <= branches.len() {
        some_match(index, near, branches, upto - 1, d) || has_match(
            index,
            near,
            branches[upto - 1],
            d,
        )
    } else {
        false
    }
}

/// The documents that a tree matches.
pub open spec fn matches(index: &Index, near: &WordDerivationsCache, tree: OperationModel) -> Set<
    u32,
> {
    Set::new(|d: u32| has_match(index, near, tree, d))
}

/// An `And` matches the documents that each of its branches matches, and
/// an `Or` those that one of its branches matches.
pub proof fn lemma_branches_match(
    index: &Index,
    near: &WordDerivationsCache,
    branches: Seq<OperationModel>,
    upto: int,
    d: u32,
)
    requires
        0 <= upto <= branches.len(),
    ensures
        all_match(index, near, branches, upto, d) <==> forall|k: int|
            0 <= k < upto ==> (#[trigger] matches(index, near, branches[k])).contains(d),
        some_match(index, near, branches, upto, d) <==> exists|k: int|
            0 <= k < upto && (#[trigger] matches(index, near, branches[k])).contains(d),
        some_fails(index, near, branches, upto) <==> exists|k: int|
            0 <= k < upto && #[trigger] fails(index, near, branches[k]),
    decreases upto,
{
    if upto > 0 {
        lemma_branches_match(index, near, branches, upto - 1, d);
        let last = branches[upto - 1];
        if some_match(index, near, branches, upto, d) {
            if has_match(index, near, last, d) {
                assert(matches(index, near, branches[upto - 1]).contains(d));
            } else {
                let k = choose|k: int|
                    0 <= k < upto - 1 && (#[trigger] matches(index, near, branches[k])).contains(d);
                assert(matches(index, near, branches[k]).contains(d));
            }
        }
        if some_fails(index, near, branches, upto) {
            if fails(index, near, last) {
                assert(fails(index, near, branches[upto - 1]));
            } else {
                let k = choose|k: int|
                    0 <= k < upto - 1 && #[trigger] fails(index, near, branches[k]);
                assert(fails(index, near, branches[k]));
            }
        }
        if forall|k: int|
            0 <= k < upto ==> (#[trigger] matches(index, near, branches[k])).contains(d) {
            assert(matches(index, near, branches[upto - 1]).contains(d));
        }
    }
}

/// When some of the first branches fail, some of more branches fail.
proof fn lemma_fails_later(
    index: &Index,
    near: &WordDerivationsCache,
    branches: Seq<OperationModel>,
    upto: int,
    later: int,
)
    requires
        0 <= upto <= later <= branches.len(),
        some_fails(index, near, branches, upto),
    ensures
        some_fails(index, near, branches, later),
    decreases later - upto,
{
    if upto < later {
        lemma_fails_later(index, near, branches, upto, later - 1);
    }
}

/// What resolving a tree gives.
pub open spec fn resolved(index: &Index, near: &WordDerivationsCache, tree: OperationModel) -> Result<
    Set<u32>,
    SearchError,
> {
    if fails(index, near, tree) {
        Err(SearchError::Bitmap)
    } else {
        Ok(matches(index, near, tree))
    }
}

/// In an index whose bitmaps can all be read, no tree fails.
pub proof fn lemma_tree_reads(index: &Index, near: &WordDerivationsCache, tree: OperationModel)
    requires
        index.wf(),
        index.reads_well(),
    ensures
        !fails(index, near, tree),
        resolved(index, near, tree) is Ok,
    decreases tree, 0int,
{
    match tree {
        OperationModel::And(branches) => {
            lemma_branches_read(index, near, branches, branches.len() as int);
        },
        OperationModel::Or(branches) => {
            lemma_branches_read(index, near, branches, branches.len() as int);
        },
        OperationModel::Word(word) => {
            index.lemma_reads(word);
        },
        OperationModel::TolerantWord(word, max_typos) => {
            let words = near.derived(word, max_typos, false);
            assert forall|j: int| 0 <= j < words.len() implies !index.word_fails(
                #[trigger] words[j],
            ) by {
                index.lemma_reads(words[j]);
            }
        },
        OperationModel::Phrase(words) => {
            assert forall|i: int| 0 <= i < words.len() implies !(
            #[trigger] index.postings_attrs.bitmap_under(words[i]) is Err) by {
                index.lemma_reads(words[i]);
            }
            assert forall|chosen: Seq<u32>| !crate::phrase::occurrence_fails(
                index,
                words,
                chosen,
            ) by {
                assert forall|i: int| 0 <= i < words.len() implies !(
                #[trigger] index.postings_ids.bitmap_under(
                    crate::index::posting_key(words[i], chosen[i]),
                ) is Err) by {
                    index.lemma_reads(crate::index::posting_key(words[i], chosen[i]));
                }
            }
        },
    }
}

/// In an index whose bitmaps can all be read, no branch fails.
pub proof fn lemma_branches_read(
    index: &Index,
    near: &WordDerivationsCache,
    branches: Seq<OperationModel>,
    upto: int,
)
    requires
        index.wf(),
        index.reads_well(),
    ensures
        !some_fails(index, near, branches, upto),
    decreases branches, upto,
{
    if 0 < upto <= branches.len() {
        lemma_branches_read(index, near, branches, upto - 1);
        lemma_tree_reads(index, near, branches[upto - 1]);
    }
}

/// What a result of resolving stands for.
pub open spec fn docids_of(result: Result<RoaringBitmap, SearchError>) -> Result<
    Set<u32>,
    SearchError,
> {
    match result {
        Ok(docids) => Ok(members(&docids)),
        Err(error) => Err(error),
    }
}

/// Whether two trees are the same.
pub fn same_operation(a: &Operation, b: &Operation) -> (same: bool)
    ensures
        same == (model_of(*a) == model_of(*b)),
    decreases a,
{
    match (a, b) {
        (Operation::And(left), Operation::And(right)) => {
            let same = same_branches(left, right);
            proof {
                lemma_branches(*left, *right);
            }
            same
        },
        (Operation::Or(left), Operation::Or(right)) => {
            let same = same_branches(left, right);
            proof {
                lemma_branches(*left, *right);
            }
            same
        },
        (Operation::Word(left), Operation::Word(right)) => is_same_bytes(
            left.as_slice(),
            right.as_slice(),
        ),
        (Operation::TolerantWord(left, left_typos), Operation::TolerantWord(right, right_typos)) => {
            *left_typos == *right_typos && is_same_bytes(left.as_slice(), right.as_slice())
        },
        (Operation::Phrase(left), Operation::Phrase(right)) => same_words(left, right),
        _ => false,
    }
}

/// The models of the branches of a node.
pub open spec fn models_of(branches: Seq<Operation>) -> Seq<OperationModel> {
    Seq::new(branches.len(), |i: int| model_of(branches[i]))
}

/// The models of two lists of branches are the branches of the models of
/// their nodes.
proof fn lemma_branches(left: Vec<Operation>, right: Vec<Operation>)
    ensures
        model_of(Operation::And(left)) == OperationModel::And(models_of(left@)),
        model_of(Operation::Or(left)) == OperationModel::Or(models_of(left@)),
        (model_of(Operation::And(left)) == model_of(Operation::And(right))) <==> models_of(left@)
            == models_of(right@),
        (model_of(Operation::Or(left)) == model_of(Operation::Or(right))) <==> models_of(left@)
            == models_of(right@),
{
    lemma_model_branches(left);
    lemma_model_branches(right);
}

/// What an `And` or an `Or` stands for has the branches that its branches
/// stand for.
pub proof fn lemma_model_branches(branches: Vec<Operation>)
    ensures
        model_of(Operation::And(branches)) == OperationModel::And(models_of(branches@)),
        model_of(Operation::Or(branches)) == OperationModel::Or(models_of(branches@)),
{
    let direct = models_of(branches@);
    let all = model_of(Operation::And(branches));
    let some = model_of(Operation::Or(branches));
    assert(all is And && some is Or);
    assert(all->And_0 =~= direct);
    assert(some->Or_0 =~= direct);
}

/// Whether two lists of branches are the same.
fn same_branches(left: &Vec<Operation>, right: &Vec<Operation>) -> (same: bool)
    ensures
        same == (models_of(left@) == models_of(right@)),
    decreases left,
{
    if left.len() != right.len() {
        assert(models_of(left@).len() != models_of(right@).len());
        return false;
    }
    let mut at: usize = 0;
    while at < left.len()
        invariant
            at <= left@.len() == right@.len(),
            forall|j: int| 0 <= j < at ==> model_of(left@[j]) == model_of(right@[j]),
            forall|j: int| 0 <= j < left@.len() ==> decreases_to!(*left => #[trigger] left@[j]),
        decreases left@.len() - at,
    {
        if !same_operation(&left[at], &right[at]) {
            assert(models_of(left@)[at as int] != models_of(right@)[at as int]);
            return false;
        }
        at += 1;
    }
    assert(models_of(left@) =~= models_of(right@));
    true
}

/// Whether two lists of words are the same.
fn same_words(left: &Vec<Vec<u8>>, right: &Vec<Vec<u8>>) -> (same: bool)
    ensures
        same == (words_of(left@) == words_of(right@)),
{
    if left.len() != right.len() {
        assert(words_of(left@).len() != words_of(right@).len());
        return false;
    }
    let mut at: usize = 0;
    while at < left.len()
        invariant
            at <= left@.len() == right@.len(),
            forall|j: int| 0 <= j < at ==> left@[j]@ == right@[j]@,
        decreases left@.len() - at,
    {
        if !is_same_bytes(left[at].as_slice(), right[at].as_slice()) {
            assert(words_of(left@)[at as int] != words_of(right@)[at as int]);
            return false;
        }
        at += 1;
    }
    assert(words_of(left@) =~= words_of(right@));
    true
}

/// A copy of a tree.
pub fn copy_operation(tree: &Operation) -> (copy: Operation)
    ensures
        model_of(copy) == model_of(*tree),
    decreases tree,
{
    match tree {
        Operation::And(branches) => {
            let copies = copy_branches(branches);
            proof {
                lemma_branches(*branches, copies);
            }
            Operation::And(copies)
        },
        Operation::Or(branches) => {
            let copies = copy_branches(branches);
            proof {
                lemma_branches(*branches, copies);
            }
            Operation::Or(copies)
        },
        Operation::Word(word) => Operation::Word(copy_bytes(word.as_slice())),
        Operation::TolerantWord(word, max_typos) => Operation::TolerantWord(
            copy_bytes(word.as_slice()),
            *max_typos,
        ),
        Operation::Phrase(words) => {
            let mut copies: Vec<Vec<u8>> = Vec::new();
            let mut at: usize = 0;
            while at < words.len()
                invariant
                    at <= words@.len(),
                    copies@.len() == at,
                    forall|j: int| 0 <= j < at ==> copies@[j]@ == words@[j]@,
                decreases words@.len() - at,
            {
                copies.push(copy_bytes(words[at].as_slice()));
                at += 1;
            }
            assert(words_of(copies@) =~= words_of(words@));
            Operation::Phrase(copies)
        },
    }
}

/// Copies of the branches of a node.
fn copy_branches(branches: &Vec<Operation>) -> (copies: Vec<Operation>)
    ensures
        models_of(copies@) == models_of(branches@),
    decreases branches,
{
    let mut copies: Vec<Operation> = Vec::new();
    let mut at: usize = 0;
    while at < branches.len()
        invariant
            at <= branches@.len(),
            copies@.len() == at,
            forall|j: int| 0 <= j < at ==> model_of(copies@[j]) == model_of(branches@[j]),
            forall|j: int|
                0 <= j < branches@.len() ==> decreases_to!(*branches => #[trigger] branches@[j]),
        decreases branches@.len() - at,
    {
        copies.push(copy_operation(&branches[at]));
        at += 1;
    }
    assert(models_of(copies@) =~= models_of(branches@));
    copies
}

/// A tree that was resolved, with its documents.
pub struct Resolution {
    pub tree: Operation,
    pub docids: RoaringBitmap,
}

/// The trees that were resolved during a search, with their documents.
pub struct ResolveCache {
    entries: Vec<Resolution>,
}

impl ResolveCache {
    /// The cache keeps the documents of `tree`.
    pub closed spec fn holds(&self, tree: OperationModel) -> bool {
        exists|i: int|
            0 <= i < self.entries@.len() && model_of((#[trigger] self.entries@[i]).tree) == tree
    }

    /// The trees that the cache keeps, with their documents.
    pub closed spec fn kept(&self) -> Seq<(OperationModel, Set<u32>)> {
        Seq::new(
            self.entries@.len(),
            |i: int| (model_of(self.entries@[i].tree), members(&self.entries@[i].docids)),
        )
    }

    /// What the cache keeps for a tree is what the tree matches.
    pub closed spec fn wf(&self, index: &Index, near: &WordDerivationsCache) -> bool {
        forall|i: int|
            0 <= i < self.entries@.len() ==> !fails(
                index,
                near,
                model_of((#[trigger] self.entries@[i]).tree),
            ) && members(&self.entries@[i].docids) == matches(
                index,
                near,
                model_of(self.entries@[i].tree),
            )
    }

    /// A cache that keeps nothing.
    pub fn new() -> (cache: ResolveCache)
        ensures
            forall|index: &Index, near: &WordDerivationsCache| cache.wf(index, near),
            forall|tree: OperationModel| !cache.holds(tree),
            cache.kept().len() == 0,
    {
        ResolveCache { entries: Vec::new() }
    }

    /// The documents kept for `tree`, if the cache keeps it.
    fn get(&self, tree: &Operation) -> (docids: Option<&RoaringBitmap>)
        ensures
            docids is Some <==> self.holds(model_of(*tree)),
            docids matches Some(found) ==> exists|i: int|
                0 <= i < self.entries@.len() && model_of((#[trigger] self.entries@[i]).tree)
                    == model_of(*tree) && self.entries@[i].docids == *found,
    {
        let mut at: usize = 0;
        while at < self.entries.len()
            invariant
                at <= self.entries@.len(),
                forall|i: int|
                    0 <= i < at ==> model_of((#[trigger] self.entries@[i]).tree) != model_of(*tree),
            decreases self.entries@.len() - at,
        {
            if same_operation(&self.entries[at].tree, tree) {
                return Some(&self.entries[at].docids);
            }
            at += 1;
        }
        None
    }

    /// Keeps `docids` as the documents of `tree`.
    fn insert(
        &mut self,
        tree: Operation,
        docids: RoaringBitmap,
        Ghost(index): Ghost<&Index>,
        Ghost(near): Ghost<&WordDerivationsCache>,
    )
        requires
            old(self).wf(index, near),
            !fails(index, near, model_of(tree)),
            members(&docids) == matches(index, near, model_of(tree)),
        ensures
            final(self).wf(index, near),
            final(self).holds(model_of(tree)),
            forall|other: OperationModel| old(self).holds(other) ==> final(self).holds(other),
            final(self).kept() == old(self).kept().push((model_of(tree), members(&docids))),
    {
        let ghost before = self.entries@;
        self.entries.push(Resolution { tree, docids });
        proof {
            assert(self.entries@[before.len() as int].tree == tree);
            assert forall|other: OperationModel| old(self).holds(other) implies self.holds(
                other,
            ) by {
                let i = choose|i: int|
                    0 <= i < before.len() && model_of((#[trigger] before[i]).tree) == other;
                assert(self.entries@[i] == before[i]);
            }
            assert forall|i: int| 0 <= i < self.entries@.len() implies !fails(
                index,
                near,
                model_of((#[trigger] self.entries@[i]).tree),
            ) && members(&self.entries@[i].docids) == matches(
                index,
                near,
                model_of(self.entries@[i].tree),
            ) by {
                if i < before.len() {
                    assert(self.entries@[i] == before[i]);
                }
            }
            assert(self.kept() =~= old(self).kept().push((model_of(tree), members(&docids))));
        }
    }
}

/// The documents that `query_tree` matches. What was resolved is kept in
/// `cache`, and a tree that the cache keeps is not resolved again: its
/// documents are those that the cache keeps, and the cache stays as it is.
pub fn resolve_query_tree(
    index: &Index,
    query_tree: &Operation,
    cache: &mut ResolveCache,
    wdcache: &WordDerivationsCache,
) -> (docids: Result<RoaringBitmap, SearchError>)
    requires
        index.wf(),
        old(cache).wf(index, wdcache),
    ensures
        final(cache).wf(index, wdcache),
        docids_of(docids) == resolved(index, wdcache, model_of(*query_tree)),
        forall|other: OperationModel| old(cache).holds(other) ==> final(cache).holds(other),
        docids is Ok ==> final(cache).holds(model_of(*query_tree)),
        old(cache).holds(model_of(*query_tree)) ==> docids is Ok && final(cache).kept() == old(
            cache,
        ).kept(),
    decreases query_tree,
{
    match cache.get(query_tree) {
        Some(found) => {
            return Ok(copy_bitmap(found));
        },
        None => {},
    }
    let docids: RoaringBitmap = match query_tree {
        Operation::And(branches) => {
            proof {
                lemma_model_branches(*branches);
            }
            assert(forall|j: int|
                0 <= j < branches@.len() ==> decreases_to!(*query_tree => #[trigger] branches@[j]));
            let mut found = empty_bitmap();
            let mut at: usize = 0;
            while at < branches.len()
                invariant
                    index.wf(),
                    cache.wf(index, wdcache),
                    at <= branches@.len(),
                    !old(cache).holds(model_of(*query_tree)),
                    model_of(*query_tree) == OperationModel::And(models_of(branches@)),
                    forall|other: OperationModel|
                        old(cache).holds(other) ==> cache.holds(other),
                    forall|j: int|
                        0 <= j < branches@.len() ==> decreases_to!(*query_tree => #[trigger] branches@[j]),
                    !some_fails(index, wdcache, models_of(branches@), at as int),
                    forall|d: u32|
                        members(&found).contains(d) <==> (at > 0 && all_match(
                            index,
                            wdcache,
                            models_of(branches@),
                            at as int,
                            d,
                        )),
                decreases branches@.len() - at,
            {
                match resolve_query_tree(index, &branches[at], cache, wdcache) {
                    Err(error) => {
                        proof {
                            assert(fails(index, wdcache, models_of(branches@)[at as int]));
                            lemma_fails_later(
                                index,
                                wdcache,
                                models_of(branches@),
                                at + 1,
                                branches@.len() as int,
                            );
                        }
                        return Err(error);
                    },
                    Ok(docids) => {
                        let ghost before = members(&found);
                        let ghost all = models_of(branches@);
                        assert(members(&docids) == matches(index, wdcache, all[at as int]));
                        if at == 0 {
                            found = docids;
                        } else {
                            intersect_with(&mut found, &docids);
                        }
                        proof {
                            assert forall|d: u32| members(&found).contains(d) <==> all_match(
                                index,
                                wdcache,
                                all,
                                at + 1,
                                d,
                            ) by {
                                assert(all_match(index, wdcache, all, at + 1, d) == (all_match(
                                    index,
                                    wdcache,
                                    all,
                                    at as int,
                                    d,
                                ) && has_match(index, wdcache, all[at as int], d)));
                                assert(matches(index, wdcache, all[at as int]).contains(d)
                                    == has_match(index, wdcache, all[at as int], d));
                            }
                        }
                    },
                }
                at += 1;
            }
            proof {
                assert(members(&found) =~= matches(index, wdcache, model_of(*query_tree)));
            }
            found
        },
        Operation::Or(branches) => {
            proof {
                lemma_model_branches(*branches);
            }
            assert(forall|j: int|
                0 <= j < branches@.len() ==> decreases_to!(*query_tree => #[trigger] branches@[j]));
            let mut found = empty_bitmap();
            let mut at: usize = 0;
            while at < branches.len()
                invariant
                    index.wf(),
                    cache.wf(index, wdcache),
                    at <= branches@.len(),
                    !old(cache).holds(model_of(*query_tree)),
                    model_of(*query_tree) == OperationModel::Or(models_of(branches@)),
                    forall|other: OperationModel|
                        old(cache).holds(other) ==> cache.holds(other),
                    forall|j: int|
                        0 <= j < branches@.len() ==> decreases_to!(*query_tree => #[trigger] branches@[j]),
                    !some_fails(index, wdcache, models_of(branches@), at as int),
                    forall|d: u32|
                        members(&found).contains(d) <==> some_match(
                            index,
                            wdcache,
                            models_of(branches@),
                            at as int,
                            d,
                        ),
                decreases branches@.len() - at,
            {
                match resolve_query_tree(index, &branches[at], cache, wdcache) {
                    Err(error) => {
                        proof {
                            assert(fails(index, wdcache, models_of(branches@)[at as int]));
                            lemma_fails_later(
                                index,
                                wdcache,
                                models_of(branches@),
                                at + 1,
                                branches@.len() as int,
                            );
                        }
                        return Err(error);
                    },
                    Ok(docids) => {
                        let ghost all = models_of(branches@);
                        assert(members(&docids) == matches(index, wdcache, all[at as int]));
                        union_with(&mut found, &docids);
                        proof {
                            assert forall|d: u32| members(&found).contains(d) <==> some_match(
                                index,
                                wdcache,
                                all,
                                at + 1,
                                d,
                            ) by {
                                assert(some_match(index, wdcache, all, at + 1, d) == (some_match(
                                    index,
                                    wdcache,
                                    all,
                                    at as int,
                                    d,
                                ) || has_match(index, wdcache, all[at as int], d)));
                                assert(matches(index, wdcache, all[at as int]).contains(d)
                                    == has_match(index, wdcache, all[at as int], d));
                            }
                        }
                    },
                }
                at += 1;
            }
            proof {
                assert(members(&found) =~= matches(index, wdcache, model_of(*query_tree)));
            }
            found
        },
        Operation::Word(word) => match index.word_docids(word.as_slice()) {
            Ok(found) => {
                proof {
                    assert(members(&found) =~= matches(index, wdcache, model_of(*query_tree)));
                }
                found
            },
            Err(error) => {
                return Err(error);
            },
        },
        Operation::TolerantWord(word, max_typos) => {
            let mut found = empty_bitmap();
            match wdcache.find(word.as_slice(), *max_typos, false) {
                None => {},
                Some(place) => {
                    let derived: &Vec<Derivation> = &wdcache.entries[place].derived;
                    let ghost words = wdcache.derived(word@, *max_typos, false);
                    let mut at: usize = 0;
                    while at < derived.len()
                        invariant
                            index.wf(),
                            cache.wf(index, wdcache),
                            *cache == *old(cache),
                            !old(cache).holds(model_of(*query_tree)),
                            model_of(*query_tree) == OperationModel::TolerantWord(
                                word@,
                                *max_typos,
                            ),
                            words == wdcache.derived(word@, *max_typos, false),
                            at <= derived@.len(),
                            words.len() == derived@.len(),
                            forall|j: int| 0 <= j < words.len() ==> words[j] == derived@[j].word@,
                            forall|j: int| 0 <= j < at ==> !index.word_fails(#[trigger] words[j]),
                            forall|d: u32|
                                members(&found).contains(d) <==> exists|j: int|
                                    0 <= j < at && index.word_members(#[trigger] words[j]).contains(
                                        d,
                                    ),
                        decreases derived@.len() - at,
                    {
                        match index.word_docids(derived[at].word.as_slice()) {
                            Err(error) => {
                                assert(index.word_fails(words[at as int]));
                                return Err(error);
                            },
                            Ok(docids) => {
                                let ghost before = members(&found);
                                assert(members(&docids) == index.word_members(words[at as int]));
                                union_with(&mut found, &docids);
                                proof {
                                    assert forall|d: u32|
                                        members(&found).contains(d) <==> exists|j: int|
                                            0 <= j < at + 1 && index.word_members(
                                                #[trigger] words[j],
                                            ).contains(d) by {
                                        if before.contains(d) {
                                            let j = choose|j: int|
                                                0 <= j < at && index.word_members(
                                                    #[trigger] words[j],
                                                ).contains(d);
                                            assert(index.word_members(words[j]).contains(d));
                                        }
                                    }
                                }
                            },
                        }
                        at += 1;
                    }
                },
            }
            proof {
                let words = wdcache.derived(word@, *max_typos, false);
                assert(members(&found) =~= near_members(index, words));
                assert(members(&found) =~= matches(index, wdcache, model_of(*query_tree)));
            }
            found
        },
        Operation::Phrase(words) => match resolve_phrase(index, words) {
            Ok(found) => {
                proof {
                    assert(members(&found) =~= matches(index, wdcache, model_of(*query_tree)));
                }
                found
            },
            Err(error) => {
                return Err(error);
            },
        },
    };
    assert(!fails(index, wdcache, model_of(*query_tree)));
    assert(members(&docids) == matches(index, wdcache, model_of(*query_tree)));
    cache.insert(copy_operation(query_tree), copy_bitmap(&docids), Ghost(index), Ghost(wdcache));
    Ok(docids)
}

} // verus!

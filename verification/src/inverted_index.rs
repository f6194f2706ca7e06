//! The full-text index: one type over its mutable and its immutable form.

use vstd::prelude::*;
use crate::cardinality::{capped, expected, expected_matches};
use crate::document::{query_matches, Document, ParsedQuery, TokenId};
use crate::field_index::{
    CardinalityEstimation, FieldCondition, Match, OperationError, PayloadBlockCondition,
    PayloadKeyType, PrimaryCondition,
};
use crate::immutable_index::{length_at, posting_match, ImmutableInvertedIndex};
use crate::mutable_index::{
    doc_at, empty_model, indexed_docs, indexed_postings, model_index, model_remove, slots_of,
    tokens_below, unindexed_postings, IndexModel, MutableInvertedIndex,
};
use crate::posting_list::PostingList;
use crate::posting_table::{
    all_have_postings, gather_postings, matching_points, slot, slot_points, table_wf,
};
use crate::postings_iterator::{common_points, intersect_postings_iterator};
use crate::sorted::strictly_increasing;
use crate::vocabulary::{
    interned_all, lemma_interned_all_extends, texts, token_ids, token_of, Vocabulary,
};
use crate::immutable_index::lengths_of;

verus! {

/// The lengths of the posting lists of the words of a query.
pub open spec fn posting_lens(
    postings: Seq<Option<PostingList>>,
    query: Seq<Option<TokenId>>,
) -> Seq<usize> {
    Seq::new(query.len(), |i: int| slot(postings, query[i].unwrap() as int).unwrap()@.len() as usize)
}

/// The least of the numbers; 0 for none.
pub open spec fn smallest(lens: Seq<usize>) -> usize
    decreases lens.len(),
{
    if lens.len() == 0 {
        0
    } else if lens.len() == 1 {
        lens[0]
    } else if lens.last() < smallest(lens.drop_last()) {
        lens.last()
    } else {
        smallest(lens.drop_last())
    }
}

/// The bounds of an estimate: least, expected and largest number of matches.
pub struct Bounds {
    pub min: usize,
    pub exp: usize,
    pub max: usize,
}

/// How many points a query is estimated to match. Nothing, where it has no
/// word, an unknown word or a word without posting list. The length of the
/// posting list, where it has one word. Else at most the length of the
/// shortest list, at least nothing, and expected as many as if the words were
/// independent of each other.
pub open spec fn estimated(
    postings: Seq<Option<PostingList>>,
    points_count: nat,
    query: Seq<Option<TokenId>>,
) -> Bounds {
    if query.len() == 0 || !all_have_postings(postings, query) {
        Bounds { min: 0, exp: 0, max: 0 }
    } else {
        let lens = posting_lens(postings, query);
        if query.len() == 1 {
            Bounds { min: smallest(lens), exp: smallest(lens), max: smallest(lens) }
        } else {
            Bounds { min: 0, exp: capped(expected_matches(lens, points_count)), max: smallest(lens) }
        }
    }
}

/// The tokens below `n` whose posting list exists and holds at least
/// `threshold` points, ascending.
pub open spec fn block_tokens(postings: Seq<Option<PostingList>>, threshold: nat, n: int) -> Seq<
    int,
>
    decreases n,
{
    if n <= 0 {
        Seq::empty()
    } else {
        let rest = block_tokens(postings, threshold, n - 1);
        if slot(postings, n - 1) is Some && slot(postings, n - 1).unwrap()@.len() >= threshold {
            rest.push(n - 1)
        } else {
            rest
        }
    }
}

/// The block says that field `key` matches the text `word`, and that `cardinality`
/// points do.
pub open spec fn is_block(
    block: PayloadBlockCondition,
    key: Seq<char>,
    word: Seq<char>,
    cardinality: nat,
) -> bool {
    &&& block.condition.key@ == key
    &&& block.condition.matching matches Some(Match::Text(m)) && m.text@ == word
    &&& block.cardinality == cardinality
}

/// The document holds the token ids of `given`, each as often as the word
/// was given.
pub open spec fn document_of(document: Document, words: Seq<Seq<char>>, given: Seq<Seq<char>>) -> bool {
    &&& document.wf()
    &&& document@.len() == given.len()
    &&& document@.to_multiset() == token_ids(words, given).to_multiset()
}

/// One item to build an index from: a point with its words, or the error that
/// fetching it gave.
pub type IndexItem = Result<(u32, Vec<String>), OperationError>;

/// The points and words of the items; of a failed item, point 0 without
/// words.
pub open spec fn entries_of(items: Seq<IndexItem>) -> Seq<(u32, Seq<Seq<char>>)> {
    Seq::new(
        items.len(),
        |i: int|
            match items[i] {
                Ok((idx, words)) => (idx, texts(words@)),
                Err(_) => (0u32, Seq::empty()),
            },
    )
}

/// The number of words of all entries together.
pub open spec fn total_words(entries: Seq<(u32, Seq<Seq<char>>)>) -> nat
    decreases entries.len(),
{
    if entries.len() == 0 {
        0
    } else {
        total_words(entries.drop_last()) + entries.last().1.len()
    }
}

/// The words after the words of each entry were looked up or added, entry by
/// entry.
pub open spec fn built_vocabulary(
    words: Seq<Seq<char>>,
    entries: Seq<(u32, Seq<Seq<char>>)>,
) -> Seq<Seq<char>>
    decreases entries.len(),
{
    if entries.len() == 0 {
        words
    } else {
        interned_all(built_vocabulary(words, entries.drop_last()), entries.last().1)
    }
}

/// What indexing the entries one after the other into an empty index gives,
/// where the words are numbered as they come, after the words `words`.
pub open spec fn built_model(
    words: Seq<Seq<char>>,
    entries: Seq<(u32, Seq<Seq<char>>)>,
) -> IndexModel
    decreases entries.len(),
{
    if entries.len() == 0 {
        empty_model()
    } else {
        model_index(
            built_model(words, entries.drop_last()),
            entries.last().0,
            token_ids(built_vocabulary(words, entries), entries.last().1).to_multiset(),
        )
    }
}

/// No two entries speak of the same point.
pub open spec fn points_distinct(entries: Seq<(u32, Seq<Seq<char>>)>) -> bool {
    forall|a: int, b: int| 0 <= a < b < entries.len() ==> entries[a].0 != entries[b].0
}

/// The two indexes are of the same form and differ at most in their words.
pub open spec fn same_but_words(before: InvertedIndex, after: InvertedIndex) -> bool {
    match (before, after) {
        (InvertedIndex::Mutable(a), InvertedIndex::Mutable(b)) => {
            &&& b.postings() == a.postings()
            &&& b.docs() == a.docs()
            &&& b.spec_points_count() == a.spec_points_count()
        },
        (InvertedIndex::Immutable(a), InvertedIndex::Immutable(b)) => {
            &&& b.postings() == a.postings()
            &&& b.lengths() == a.lengths()
            &&& b.spec_points_count() == a.spec_points_count()
        },
        _ => false,
    }
}

/// The immutable index holds what the model holds: the posting lists, the
/// count, and for each point that has a document the number of its tokens.
pub open spec fn holds_model(index: ImmutableInvertedIndex, model: IndexModel) -> bool {
    &&& slots_of(index.postings()) == model.slots
    &&& index.spec_points_count() == model.points_count
    &&& forall|p: u32|
        (#[trigger] length_at(index.lengths(), p as int)) is Some <==> model.docs.contains_key(p)
    &&& forall|p: u32|
        model.docs.contains_key(p) ==> (#[trigger] length_at(index.lengths(), p as int))
            == Some(model.docs[p].len() as usize)
}

/// The words of a prefix of the entries are no more than those of all.
pub proof fn lemma_total_words_prefix(entries: Seq<(u32, Seq<Seq<char>>)>, n: int)
    requires
        0 <= n <= entries.len(),
    ensures
        total_words(entries.take(n)) <= total_words(entries),
    decreases entries.len(),
{
    if n == entries.len() {
        assert(entries.take(n) =~= entries);
    } else {
        lemma_total_words_prefix(entries.drop_last(), n);
        assert(entries.drop_last().take(n) =~= entries.take(n));
    }
}

/// Building adds no more words than the entries have.
pub proof fn lemma_built_vocabulary_len(words: Seq<Seq<char>>, entries: Seq<(u32, Seq<Seq<char>>)>)
    ensures
        words.len() <= built_vocabulary(words, entries).len() <= words.len() + total_words(entries),
    decreases entries.len(),
{
    if entries.len() > 0 {
        lemma_built_vocabulary_len(words, entries.drop_last());
        lemma_interned_all_extends(
            built_vocabulary(words, entries.drop_last()),
            entries.last().1,
        );
    }
}

/// The full-text index of a payload field.
pub enum InvertedIndex {
    Mutable(MutableInvertedIndex),
    Immutable(ImmutableInvertedIndex),
}

impl InvertedIndex {
    /// The posting lists by token id.
    pub open spec fn postings(&self) -> Seq<Option<PostingList>> {
        match self {
            InvertedIndex::Mutable(index) => index.postings(),
            InvertedIndex::Immutable(index) => index.postings(),
        }
    }

    /// The words of the index.
    pub open spec fn vocabulary(&self) -> Vocabulary {
        match self {
            InvertedIndex::Mutable(index) => index.vocabulary(),
            InvertedIndex::Immutable(index) => index.vocabulary(),
        }
    }

    /// The count of points that the index keeps.
    pub open spec fn spec_points_count(&self) -> nat {
        match self {
            InvertedIndex::Mutable(index) => index.spec_points_count(),
            InvertedIndex::Immutable(index) => index.spec_points_count(),
        }
    }

    /// The form that the index is in is well formed.
    pub open spec fn wf(&self) -> bool {
        match self {
            InvertedIndex::Mutable(index) => index.wf(),
            InvertedIndex::Immutable(index) => index.wf(),
        }
    }

    /// The empty index: mutable where `is_appendable`, else immutable.
    pub fn new(is_appendable: bool) -> (r: InvertedIndex)
        ensures
            r.wf(),
            r is Mutable <==> is_appendable,
            r.postings().len() == 0,
            r.vocabulary()@.len() == 0,
            r.spec_points_count() == 0,
            r matches InvertedIndex::Mutable(index) ==> index.paired() && index.docs().len() == 0,
            r matches InvertedIndex::Immutable(index) ==> index.lengths().len() == 0,
    {
        if is_appendable {
            InvertedIndex::Mutable(MutableInvertedIndex::default())
        } else {
            InvertedIndex::Immutable(ImmutableInvertedIndex::default())
        }
    }

    /// The document of the given words. A word that the vocabulary does not
    /// know is added to it with the next free token id. Nothing else of the
    /// index changes.
    pub fn document_from_tokens(&mut self, tokens: &Vec<String>) -> (document: Document)
        requires
            old(self).wf(),
            old(self).vocabulary()@.len() + tokens@.len() <= u32::MAX,
        ensures
            final(self).wf(),
            final(self).vocabulary()@ == interned_all(old(self).vocabulary()@, texts(tokens@)),
            document_of(document, final(self).vocabulary()@, texts(tokens@)),
            forall|k: int|
                0 <= k < document@.len() ==> (#[trigger] document@[k]) < final(
                    self
                ).vocabulary()@.len(),
            final(self).postings() == old(self).postings(),
            final(self).spec_points_count() == old(self).spec_points_count(),
            match (*old(self), *final(self)) {
                (InvertedIndex::Mutable(before), InvertedIndex::Mutable(after)) => after.docs()
                    == before.docs() && (before.paired() ==> after.paired()) && (
                before.tokens_known() ==> after.tokens_known()),
                (InvertedIndex::Immutable(before), InvertedIndex::Immutable(after)) => after.lengths()
                    == before.lengths(),
                _ => false,
            },
    {
        let document_tokens = match self {
            InvertedIndex::Mutable(index) => {
                proof {
                    index.lemma_fields();
                }
                let ids = index.vocab.intern_all(tokens);
                proof {
                    index.lemma_fields();
                }
                ids
            },
            InvertedIndex::Immutable(index) => {
                proof {
                    index.lemma_fields();
                }
                let ids = index.vocab.intern_all(tokens);
                proof {
                    index.lemma_fields();
                }
                ids
            },
        };
        let ghost ids = document_tokens@;
        let document = Document::new(document_tokens);
        proof {
            lemma_interned_all_extends(old(self).vocabulary()@, texts(tokens@));
            assert forall|k: int| 0 <= k < document@.len() implies (#[trigger] document@[k])
                < self.vocabulary()@.len() by {
                assert(document@.contains(document@[k]));
                assert(ids.contains(document@[k]));
            }
        }
        document
    }

    /// Indexes point `idx` with `document`. Only the mutable index takes
    /// documents; the immutable one answers with a service error and stays as
    /// it is.
    pub fn index_document(&mut self, idx: u32, document: Document) -> (r: Result<
        (),
        OperationError,
    >)
        requires
            old(self).wf(),
            document.wf(),
            old(self).spec_points_count() < usize::MAX,
            idx < usize::MAX,
            forall|k: int| 0 <= k < document@.len() ==> document@[k] < usize::MAX,
        ensures
            final(self).wf(),
            r is Ok <==> *old(self) is Mutable,
            match (*old(self), *final(self)) {
                (InvertedIndex::Mutable(before), InvertedIndex::Mutable(after)) => {
                    &&& after.vocabulary() == before.vocabulary()
                    &&& after.spec_points_count() == before.spec_points_count() + 1
                    &&& indexed_docs(before.docs(), after.docs(), idx, document)
                    &&& indexed_postings(before.postings(), after.postings(), document@, idx)
                    &&& after.model() == model_index(
                        before.model(),
                        idx,
                        document@.to_multiset(),
                    )
                    &&& before.paired() && doc_at(before.docs(), idx as int) is None
                        ==> after.paired()
                    &&& before.tokens_known() && (forall|k: int|
                        0 <= k < document@.len() ==> document@[k] < before.vocabulary()@.len())
                        ==> after.tokens_known()
                },
                (InvertedIndex::Immutable(before), InvertedIndex::Immutable(after)) => {
                    &&& after == before
                    &&& r matches Err(OperationError::ServiceError { description })
                        && description@ == "Can't add values to immutable text index"@
                },
                _ => false,
            },
    {
        match self {
            InvertedIndex::Mutable(index) => index.index_document(idx, document),
            InvertedIndex::Immutable(_index) => Err(
                OperationError::service_error("Can't add values to immutable text index"),
            ),
        }
    }

    /// Removes point `idx`. Answers whether the index held it.
    pub fn remove_document(&mut self, idx: u32) -> (removed: bool)
        requires
            old(self).wf(),
        ensures
            final(self).wf(),
            final(self).vocabulary() == old(self).vocabulary(),
            final(self).spec_points_count() == old(self).spec_points_count() - if removed {
                1int
            } else {
                0int
            },
            match (*old(self), *final(self)) {
                (InvertedIndex::Mutable(before), InvertedIndex::Mutable(after)) => {
                    &&& removed == (doc_at(before.docs(), idx as int) is Some)
                    &&& after.model() == model_remove(before.model(), idx)
                    &&& !removed ==> after.docs() == before.docs() && after.postings()
                        == before.postings()
                    &&& removed ==> after.docs() == before.docs().update(idx as int, None)
                        && unindexed_postings(
                        before.postings(),
                        after.postings(),
                        before.docs()[idx as int].unwrap()@,
                        idx,
                    )
                    &&& before.paired() ==> after.paired()
                    &&& before.tokens_known() ==> after.tokens_known()
                },
                (InvertedIndex::Immutable(before), InvertedIndex::Immutable(after)) => {
                    &&& removed == (length_at(before.lengths(), idx as int) is Some)
                    &&& after.postings() == before.postings()
                    &&& after.lengths() == if removed {
                        before.lengths().update(idx as int, None)
                    } else {
                        before.lengths()
                    }
                },
                _ => false,
            },
    {
        match self {
            InvertedIndex::Mutable(index) => index.remove_document(idx),
            InvertedIndex::Immutable(index) => index.remove_document(idx),
        }
    }

    /// The points that hold every word of the query, ascending.
    pub fn filter(&self, query: &ParsedQuery) -> (points: Vec<u32>)
        requires
            self.wf(),
        ensures
            strictly_increasing(points@),
            points@.to_set() == matching_points(self.postings(), query.tokens@),
    {
        let index_postings = match self {
            InvertedIndex::Mutable(index) => {
                proof {
                    index.lemma_fields();
                }
                &index.postings
            },
            InvertedIndex::Immutable(index) => {
                proof {
                    index.lemma_fields();
                }
                &index.postings
            },
        };
        let postings_opt = gather_postings(index_postings, query);
        if postings_opt.is_none() {
            // There are unseen tokens -> no matches
            let none: Vec<u32> = Vec::new();
            assert(none@.to_set() =~= Set::<u32>::empty());
            return none;
        }
        let postings = postings_opt.unwrap();
        if postings.len() == 0 {
            // Empty request -> no matches
            let none: Vec<u32> = Vec::new();
            assert(none@.to_set() =~= Set::<u32>::empty());
            return none;
        }
        proof {
            let table = index_postings@;
            let words = query.tokens@;
            assert forall|i: int| 0 <= i < postings@.len() implies (#[trigger] postings@[i]).wf() by {
                assert(Some(*postings@[i]) == slot(table, words[i].unwrap() as int));
            }
            assert forall|p: u32|
                common_points(postings@).contains(p) <==> matching_points(table, words).contains(
                    p,
                ) by {
                if common_points(postings@).contains(p) {
                    assert forall|i: int| 0 <= i < words.len() implies slot_points(
                        table,
                        (#[trigger] words[i]).unwrap() as int,
                    ).contains(p) by {
                        assert(Some(*postings@[i]) == slot(table, words[i].unwrap() as int));
                        assert(postings@[i]@.contains(p));
                    }
                }
                if matching_points(table, words).contains(p) {
                    assert forall|i: int| 0 <= i < postings@.len() implies (
                    #[trigger] postings@[i])@.contains(p) by {
                        assert(Some(*postings@[i]) == slot(table, words[i].unwrap() as int));
                        assert(slot_points(
                            table,
                            words[i].unwrap() as int,
                        ).contains(p));
                    }
                }
            }
            assert(common_points(postings@) =~= matching_points(table, words));
        }
        intersect_postings_iterator(postings)
    }

    /// How many points the query is estimated to match; the estimate names
    /// `condition` as the condition it was made for.
    pub fn estimate_cardinality(&self, query: &ParsedQuery, condition: &FieldCondition) -> (est:
        CardinalityEstimation)
        requires
            self.wf(),
        ensures
            est.primary_clauses@ == seq![PrimaryCondition::Condition(*condition)],
            (Bounds { min: est.min, exp: est.exp, max: est.max }) == estimated(
                self.postings(),
                self.spec_points_count(),
                query.tokens@,
            ),
    {
        let points_count = match self {
            InvertedIndex::Mutable(index) => index.points_count(),
            InvertedIndex::Immutable(index) => index.points_count(),
        };
        let index_postings = match self {
            InvertedIndex::Mutable(index) => {
                proof {
                    index.lemma_fields();
                }
                &index.postings
            },
            InvertedIndex::Immutable(index) => {
                proof {
                    index.lemma_fields();
                }
                &index.postings
            },
        };
        let postings_opt = gather_postings(index_postings, query);
        if postings_opt.is_none() {
            // There are unseen tokens -> no matches
            return CardinalityEstimation::of(condition, 0, 0, 0);
        }
        let postings = postings_opt.unwrap();
        if postings.len() == 0 {
            // Empty request -> no matches
            return CardinalityEstimation::of(condition, 0, 0, 0);
        }
        let ghost want = posting_lens(index_postings@, query.tokens@);
        let mut lens: Vec<usize> = Vec::new();
        let mut smallest_posting: usize = 0;
        let mut i: usize = 0;
        assert(lens@ =~= want.take(0));
        while i < postings.len()
            invariant
                i <= postings@.len(),
                postings@.len() == query.tokens@.len(),
                want == posting_lens(index_postings@, query.tokens@),
                forall|k: int|
                    0 <= k < postings@.len() ==> Some(*#[trigger] postings@[k]) == slot(
                        index_postings@,
                        query.tokens@[k].unwrap() as int,
                    ),
                lens@ == want.take(i as int),
                smallest_posting == smallest(lens@),
            decreases postings@.len() - i,
        {
            let len: usize = postings[i].len();
            proof {
                assert(Some(*postings@[i as int]) == slot(
                    index_postings@,
                    query.tokens@[i as int].unwrap() as int,
                ));
                assert(len == want[i as int]);
                let upto = want.take(i + 1);
                assert(upto.drop_last() =~= want.take(i as int));
                assert(lens@.push(len) =~= upto);
            }
            if i == 0 || len < smallest_posting {
                smallest_posting = len;
            }
            lens.push(len);
            i += 1;
        }
        assert(lens@ =~= want);
        // Smallest posting is the largest possible cardinality
        if postings.len() == 1 {
            CardinalityEstimation::of(
                condition,
                smallest_posting,
                smallest_posting,
                smallest_posting,
            )
        } else {
            let exp = expected(&lens, points_count);
            CardinalityEstimation::of(condition, 0, exp, smallest_posting)
        }
    }

    /// For each word whose posting list exists and holds at least
    /// `threshold` points: the condition that field `key` matches the word,
    /// with the number of points that do. The blocks come in the order of
    /// the token ids.
    pub fn payload_blocks(&self, threshold: usize, key: PayloadKeyType) -> (blocks: Vec<
        PayloadBlockCondition,
    >)
        requires
            self.wf(),
        ensures
            ({
                let tokens = block_tokens(
                    self.postings(),
                    threshold as nat,
                    self.vocabulary()@.len() as int,
                );
                &&& blocks@.len() == tokens.len()
                &&& forall|i: int|
                    0 <= i < blocks@.len() ==> is_block(
                        #[trigger] blocks@[i],
                        key@,
                        self.vocabulary()@[tokens[i]],
                        slot(self.postings(), tokens[i]).unwrap()@.len(),
                    )
            }),
    {
        // It might be very hard to predict possible combinations of conditions,
        // so we only build it for individual tokens
        let vocab = match self {
            InvertedIndex::Mutable(index) => {
                proof {
                    index.lemma_fields();
                }
                &index.vocab
            },
            InvertedIndex::Immutable(index) => {
                proof {
                    index.lemma_fields();
                }
                &index.vocab
            },
        };
        let postings = match self {
            InvertedIndex::Mutable(index) => &index.postings,
            InvertedIndex::Immutable(index) => &index.postings,
        };
        let mut blocks: Vec<PayloadBlockCondition> = Vec::new();
        let mut posting_idx: usize = 0;
        while posting_idx < vocab.len()
            invariant
                posting_idx <= vocab@.len(),
                blocks@.len() == block_tokens(
                    postings@,
                    threshold as nat,
                    posting_idx as int,
                ).len(),
                forall|i: int|
                    0 <= i < blocks@.len() ==> is_block(
                        #[trigger] blocks@[i],
                        key@,
                        vocab@[block_tokens(postings@, threshold as nat, posting_idx as int)[i]],
                        slot(
                            postings@,
                            block_tokens(postings@, threshold as nat, posting_idx as int)[i],
                        ).unwrap()@.len(),
                    ),
            decreases vocab@.len() - posting_idx,
        {
            if posting_idx < postings.len() {
                if let Some(posting) = &postings[posting_idx] {
                    if posting.len() >= threshold {
                        let token: &String = vocab.word(posting_idx);
                        blocks.push(
                            PayloadBlockCondition {
                                condition: FieldCondition::text_match(key.clone(), token.clone()),
                                cardinality: posting.len(),
                            },
                        );
                    }
                }
            }
            posting_idx += 1;
        }
        blocks
    }

    /// Builds the index anew from the items: each point is indexed with the
    /// document of its words, in the order of the items, into an empty index
    /// that then takes the place of this one, in the form that this one is
    /// in. The words keep the token ids they have and new words are numbered
    /// after them. The first failed item ends the build with its error; the
    /// index then keeps its points, and has the words of the items before.
    pub fn build_index(&mut self, items: &Vec<IndexItem>) -> (r: Result<(), OperationError>)
        requires
            old(self).wf(),
            old(self).vocabulary()@.len() + total_words(entries_of(items@)) <= u32::MAX,
            forall|i: int|
                0 <= i < items@.len() ==> (#[trigger] items@[i] matches Ok((idx, _)) ==> idx
                    < usize::MAX),
        ensures
            final(self).wf(),
            r is Ok <==> forall|i: int| 0 <= i < items@.len() ==> items@[i] is Ok,
            r is Ok ==> {
                let entries = entries_of(items@);
                let words = old(self).vocabulary()@;
                &&& final(self).vocabulary()@ == built_vocabulary(words, entries)
                &&& match *final(self) {
                    InvertedIndex::Mutable(index) => *old(self) is Mutable && index.model()
                        == built_model(words, entries) && index.tokens_known() && (
                    points_distinct(entries) ==> index.paired()),
                    InvertedIndex::Immutable(index) => *old(self) is Immutable && holds_model(
                        index,
                        built_model(words, entries),
                    ),
                }
            },
            r matches Err(e) ==> exists|n: int|
                {
                    &&& 0 <= n < items@.len()
                    &&& forall|i: int| 0 <= i < n ==> items@[i] is Ok
                    &&& #[trigger] items@[n] == Err::<(u32, Vec<String>), OperationError>(e)
                    &&& final(self).vocabulary()@ == built_vocabulary(
                        old(self).vocabulary()@,
                        entries_of(items@).take(n),
                    )
                    &&& same_but_words(*old(self), *final(self))
                },
    {
        let mut index = MutableInvertedIndex::default();
        let ghost entries = entries_of(items@);
        let ghost words = old(self).vocabulary()@;
        let mut n: usize = 0;
        proof {
            assert(entries.take(0) =~= Seq::<(u32, Seq<Seq<char>>)>::empty());
        }
        while n < items.len()
            invariant
                n <= items@.len(),
                entries == entries_of(items@),
                words == old(self).vocabulary()@,
                words.len() + total_words(entries) <= u32::MAX,
                forall|i: int|
                    0 <= i < items@.len() ==> (#[trigger] items@[i] matches Ok((idx, _)) ==> idx
                        < usize::MAX),
                forall|i: int| 0 <= i < n ==> items@[i] is Ok,
                self.wf(),
                same_but_words(*old(self), *self),
                self.vocabulary()@ == built_vocabulary(words, entries.take(n as int)),
                index.wf(),
                index.vocabulary()@.len() == 0,
                index.spec_points_count() == n,
                index.model() == built_model(words, entries.take(n as int)),
                tokens_below(index.docs(), self.vocabulary()@.len()),
                forall|p: u32|
                    (#[trigger] doc_at(index.docs(), p as int)) is Some ==> exists|i: int|
                        0 <= i < n && entries[i].0 == p,
                points_distinct(entries) ==> index.paired(),
            decreases items@.len() - n,
        {
            match &items[n] {
                Err(e) => {
                    return Err(e.clone());
                },
                Ok((idx, tokens)) => {
                    proof {
                        lemma_total_words_prefix(entries, n + 1);
                        lemma_built_vocabulary_len(words, entries.take(n as int));
                        let upto = entries.take(n + 1);
                        assert(upto.drop_last() =~= entries.take(n as int));
                        assert(upto.last() == entries[n as int]);
                        assert(entries[n as int] == (*idx, texts(tokens@)));
                        lemma_built_vocabulary_len(words, upto);
                    }
                    let ghost known = self.vocabulary()@.len();
                    let doc = self.document_from_tokens(tokens);
                    proof {
                        lemma_interned_all_extends(
                            built_vocabulary(words, entries.take(n as int)),
                            texts(tokens@),
                        );
                        assert(tokens_below(index.docs(), self.vocabulary()@.len())) by {
                            assert(tokens_below(index.docs(), known));
                        }
                    }
                    let ghost docs_before = index.docs();
                    let indexed = index.index_document(*idx, doc);
                    if let Err(e) = indexed {
                        return Err(e);
                    }
                    proof {
                        assert forall|p: u32|
                            (#[trigger] doc_at(index.docs(), p as int)) is Some implies exists|
                            i: int,
                        |
                            0 <= i < n + 1 && entries[i].0 == p by {
                            if p == *idx {
                                assert(entries[n as int].0 == p);
                            } else {
                                assert(doc_at(index.docs(), p as int) == doc_at(
                                    docs_before,
                                    p as int,
                                ));
                                let i = choose|i: int| 0 <= i < n && entries[i].0 == p;
                                assert(entries[i].0 == p);
                            }
                        }
                        if points_distinct(entries) {
                            if doc_at(docs_before, *idx as int) is Some {
                                let i = choose|i: int| 0 <= i < n && entries[i].0 == *idx;
                                assert(entries[i].0 != entries[n as int].0);
                            }
                        }
                    }
                },
            }
            n += 1;
        }
        proof {
            assert(entries.take(n as int) =~= entries);
        }
        match self {
            InvertedIndex::Mutable(i) => {
                proof {
                    i.lemma_fields();
                    index.lemma_fields();
                }
                let ghost built = index;
                core::mem::swap(&mut index.vocab, &mut i.vocab);
                proof {
                    index.lemma_fields();
                    built.lemma_fields();
                }
                *i = index;
            },
            InvertedIndex::Immutable(i) => {
                proof {
                    i.lemma_fields();
                    index.lemma_fields();
                }
                let ghost built = index;
                core::mem::swap(&mut index.vocab, &mut i.vocab);
                proof {
                    index.lemma_fields();
                    built.lemma_fields();
                    assert(index.wf());
                }
                let ghost model = index.model();
                let ghost docs = index.docs();
                *i = ImmutableInvertedIndex::from(index);
                proof {
                    assert forall|p: u32|
                        (#[trigger] length_at(i.lengths(), p as int)) is Some
                            <==> model.docs.contains_key(p) by {
                        if 0 <= p < docs.len() {
                            assert(lengths_of(docs)[p as int] is Some <==> docs[p as int] is Some);
                        }
                    }
                    assert forall|p: u32| model.docs.contains_key(p) implies (#[trigger] length_at(
                        i.lengths(),
                        p as int,
                    )) == Some(model.docs[p].len() as usize) by {
                        docs[p as int].unwrap()@.to_multiset_ensures();
                    }
                }
            },
        }
        Ok(())
    }

    /// Whether point `point_id` matches the query: by its document in the
    /// mutable index, by the posting lists in the immutable one.
    pub fn check_match(&self, parsed_query: &ParsedQuery, point_id: u32) -> (b: bool)
        requires
            self.wf(),
        ensures
            b == match *self {
                InvertedIndex::Mutable(index) => match doc_at(index.docs(), point_id as int) {
                    Some(doc) => query_matches(parsed_query.tokens@, doc@),
                    None => false,
                },
                InvertedIndex::Immutable(index) => posting_match(
                    index.postings(),
                    index.lengths(),
                    parsed_query.tokens@,
                    point_id,
                ),
            },
    {
        match self {
            InvertedIndex::Mutable(index) => index.check_match(parsed_query, point_id),
            InvertedIndex::Immutable(index) => index.check_match(parsed_query, point_id),
        }
    }

    /// Whether point `point_id` has no token.
    pub fn values_is_empty(&self, point_id: u32) -> (b: bool)
        ensures
            b == match *self {
                InvertedIndex::Mutable(index) => match doc_at(index.docs(), point_id as int) {
                    Some(doc) => doc@.len() == 0,
                    None => true,
                },
                InvertedIndex::Immutable(index) => length_at(
                    index.lengths(),
                    point_id as int,
                ) is None,
            },
    {
        match self {
            InvertedIndex::Mutable(index) => index.values_is_empty(point_id),
            InvertedIndex::Immutable(index) => index.values_is_empty(point_id),
        }
    }

    /// The number of tokens of point `point_id`.
    pub fn values_count(&self, point_id: u32) -> (n: usize)
        ensures
            n == match *self {
                InvertedIndex::Mutable(index) => match doc_at(index.docs(), point_id as int) {
                    Some(doc) => doc@.len() as usize,
                    None => 0,
                },
                InvertedIndex::Immutable(index) => match length_at(
                    index.lengths(),
                    point_id as int,
                ) {
                    Some(len) => len,
                    None => 0,
                },
            },
    {
        match self {
            InvertedIndex::Mutable(index) => index.values_count(point_id),
            InvertedIndex::Immutable(index) => index.values_count(point_id),
        }
    }

    /// The count of points that the index keeps.
    pub fn points_count(&self) -> (n: usize)
        ensures
            n == self.spec_points_count(),
    {
        match self {
            InvertedIndex::Mutable(index) => index.points_count(),
            InvertedIndex::Immutable(index) => index.points_count(),
        }
    }

    /// The number of words that the vocabulary knows.
    pub fn vocabulary_len(&self) -> (n: usize)
        ensures
            n == self.vocabulary()@.len(),
    {
        match self {
            InvertedIndex::Mutable(index) => {
                proof {
                    index.lemma_fields();
                }
                index.vocab.len()
            },
            InvertedIndex::Immutable(index) => {
                proof {
                    index.lemma_fields();
                }
                index.vocab.len()
            },
        }
    }

    /// The token id of `token`, if the vocabulary knows the word.
    pub fn get_token(&self, token: &str) -> (id: Option<TokenId>)
        requires
            self.wf(),
        ensures
            id == token_of(self.vocabulary()@, token@),
    {
        match self {
            InvertedIndex::Mutable(index) => {
                proof {
                    index.lemma_fields();
                }
                index.vocab.get(token)
            },
            InvertedIndex::Immutable(index) => {
                proof {
                    index.lemma_fields();
                }
                index.vocab.get(token)
            },
        }
    }
}

} // verus!

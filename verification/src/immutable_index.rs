//! The index once it is built: the posting lists and the vocabulary of the
//! mutable index, and of each document only its length.

use vstd::prelude::*;
use vstd::std_specs::convert::FromSpecImpl;
use crate::document::{all_resolved, query_matches, Document, ParsedQuery, TokenId};
use crate::mutable_index::{
    backward_linked, doc_at, forward_linked, live_points, MutableInvertedIndex,
};
use crate::posting_list::PostingList;
use crate::posting_table::{slot, slot_points, table_wf};
use crate::vocabulary::Vocabulary;

verus! {

/// The number of tokens of point `p`; `None` beyond the end of the table too.
pub open spec fn length_at(lengths: Seq<Option<usize>>, p: int) -> Option<usize> {
    if 0 <= p < lengths.len() {
        lengths[p]
    } else {
        None
    }
}

/// The number of points that have a length.
pub open spec fn live_lengths(lengths: Seq<Option<usize>>) -> nat
    decreases lengths.len(),
{
    if lengths.len() == 0 {
        0
    } else {
        live_lengths(lengths.drop_last()) + if lengths.last() is Some {
            1nat
        } else {
            0nat
        }
    }
}

/// The lengths of the documents of a table, point by point.
pub open spec fn lengths_of(docs: Seq<Option<Document>>) -> Seq<Option<usize>> {
    Seq::new(
        docs.len(),
        |p: int|
            match docs[p] {
                Some(doc) => Some(doc@.len() as usize),
                None => None,
            },
    )
}

/// Whether a point of the immutable index matches a query: every word is
/// known, the point has a length, and the posting list of every word holds the
/// point.
pub open spec fn posting_match(
    postings: Seq<Option<PostingList>>,
    lengths: Seq<Option<usize>>,
    query: Seq<Option<TokenId>>,
    point_id: u32,
) -> bool {
    &&& all_resolved(query)
    &&& length_at(lengths, point_id as int) is Some
    &&& forall|i: int|
        0 <= i < query.len() ==> slot_points(postings, (#[trigger] query[i]).unwrap() as int).contains(
            point_id,
        )
}

/// Taking the length of a point away lowers the number of live points by
/// one where it had a length.
pub proof fn lemma_live_lengths_clear(lengths: Seq<Option<usize>>, p: int)
    requires
        0 <= p < lengths.len(),
        lengths[p] is Some,
    ensures
        live_lengths(lengths.update(p, None)) + 1 == live_lengths(lengths),
    decreases lengths.len(),
{
    let after = lengths.update(p, None);
    if p == lengths.len() - 1 {
        assert(after.drop_last() =~= lengths.drop_last());
    } else {
        lemma_live_lengths_clear(lengths.drop_last(), p);
        assert(after.drop_last() =~= lengths.drop_last().update(p, None));
    }
}

/// As many points have a length as have a document.
pub proof fn lemma_live_lengths_of_docs(docs: Seq<Option<Document>>)
    ensures
        live_lengths(lengths_of(docs)) == live_points(docs),
    decreases docs.len(),
{
    if docs.len() > 0 {
        lemma_live_lengths_of_docs(docs.drop_last());
        assert(lengths_of(docs).drop_last() =~= lengths_of(docs.drop_last()));
    }
}

/// The index in its built form.
pub struct ImmutableInvertedIndex {
    pub(crate) postings: Vec<Option<PostingList>>,
    pub(crate) vocab: Vocabulary,
    pub(crate) point_documents_tokens: Vec<Option<usize>>,
    pub(crate) points_count: usize,
}

impl Default for ImmutableInvertedIndex {
    /// The index without points and without words.
    fn default() -> (r: Self)
        ensures
            r.wf(),
            r.postings().len() == 0,
            r.lengths().len() == 0,
            r.vocabulary()@.len() == 0,
            r.spec_points_count() == 0,
    {
        ImmutableInvertedIndex {
            postings: Vec::new(),
            vocab: Vocabulary::new(),
            point_documents_tokens: Vec::new(),
            points_count: 0,
        }
    }
}

impl ImmutableInvertedIndex {
    /// The posting lists by token id.
    pub closed spec fn postings(&self) -> Seq<Option<PostingList>> {
        self.postings@
    }

    /// The document lengths by point id.
    pub closed spec fn lengths(&self) -> Seq<Option<usize>> {
        self.point_documents_tokens@
    }

    /// The words of the index.
    pub closed spec fn vocabulary(&self) -> Vocabulary {
        self.vocab
    }

    /// The count of points that the index keeps.
    pub closed spec fn spec_points_count(&self) -> nat {
        self.points_count as nat
    }

    /// The accessors are the fields.
    pub(crate) proof fn lemma_fields(&self)
        ensures
            self.postings() == self.postings@,
            self.lengths() == self.point_documents_tokens@,
            self.vocabulary() == self.vocab,
            self.spec_points_count() == self.points_count,
    {
    }

    /// The lists are ascending and the count is not below the number of
    /// points that have a length.
    pub open spec fn wf(&self) -> bool {
        &&& self.vocabulary().wf()
        &&& table_wf(self.postings())
        &&& live_lengths(self.lengths()) <= self.spec_points_count()
    }

    /// The count of points: that of the index it was built from, less one for
    /// each point removed since.
    pub fn points_count(&self) -> (n: usize)
        ensures
            n == self.spec_points_count(),
    {
        self.points_count
    }

    /// Forgets the length of point `idx`. Answers whether the point had one;
    /// where it had none, nothing changes. The posting lists stay as they
    /// are.
    pub fn remove_document(&mut self, idx: u32) -> (removed: bool)
        requires
            old(self).wf(),
        ensures
            final(self).wf(),
            removed == (length_at(old(self).lengths(), idx as int) is Some),
            final(self).vocabulary() == old(self).vocabulary(),
            final(self).postings() == old(self).postings(),
            !removed ==> final(self).lengths() == old(self).lengths() && final(
                self
            ).spec_points_count() == old(self).spec_points_count(),
            removed ==> final(self).lengths() == old(self).lengths().update(idx as int, None)
                && final(self).spec_points_count() == old(self).spec_points_count() - 1,
    {
        if self.values_is_empty(idx) {
            return false;
        }
        proof {
            lemma_live_lengths_clear(self.point_documents_tokens@, idx as int);
        }
        self.point_documents_tokens[idx as usize] = None;
        self.points_count -= 1;
        true
    }

    /// Whether point `point_id` has no length.
    pub fn values_is_empty(&self, point_id: u32) -> (b: bool)
        ensures
            b == (length_at(self.lengths(), point_id as int) is None),
    {
        if self.point_documents_tokens.len() <= point_id as usize {
            return true;
        }
        self.point_documents_tokens[point_id as usize].is_none()
    }

    /// The number of tokens of point `point_id`, 0 where it has no length.
    pub fn values_count(&self, point_id: u32) -> (n: usize)
        ensures
            n == match length_at(self.lengths(), point_id as int) {
                Some(len) => len,
                None => 0,
            },
    {
        if self.point_documents_tokens.len() <= point_id as usize {
            return 0;
        }
        match self.point_documents_tokens[point_id as usize] {
            Some(len) => len,
            None => 0,
        }
    }

    /// Whether point `point_id` has a length and stands in the posting list
    /// of every word of the query. A word without a posting list matches no
    /// point.
    pub fn check_match(&self, parsed_query: &ParsedQuery, point_id: u32) -> (b: bool)
        requires
            self.wf(),
        ensures
            b == posting_match(self.postings(), self.lengths(), parsed_query.tokens@, point_id),
    {
        if !parsed_query.is_resolved() {
            return false;
        }
        if self.values_is_empty(point_id) {
            return false;
        }
        let mut i: usize = 0;
        while i < parsed_query.tokens.len()
            invariant
                i <= parsed_query.tokens@.len(),
                self.wf(),
                all_resolved(parsed_query.tokens@),
                forall|k: int|
                    0 <= k < i ==> slot_points(
                        self.postings@,
                        (#[trigger] parsed_query.tokens@[k]).unwrap() as int,
                    ).contains(point_id),
            decreases parsed_query.tokens@.len() - i,
        {
            let query_token: usize = parsed_query.tokens[i].unwrap() as usize;
            if query_token >= self.postings.len() {
                assert(!slot_points(
                    self.postings@,
                    parsed_query.tokens@[i as int].unwrap() as int,
                ).contains(point_id));
                return false;
            }
            let holds = match &self.postings[query_token] {
                Some(posting_list) => {
                    assert(self.postings@[query_token as int] is Some);
                    posting_list.contains(&point_id)
                },
                None => false,
            };
            if !holds {
                assert(!slot_points(
                    self.postings@,
                    parsed_query.tokens@[i as int].unwrap() as int,
                ).contains(point_id));
                return false;
            }
            i += 1;
        }
        true
    }
}

impl From<MutableInvertedIndex> for ImmutableInvertedIndex {
    /// The built form of a mutable index: the same posting lists, words and
    /// count, and the length of each document in place of the document.
    fn from(index: MutableInvertedIndex) -> (r: Self)
        ensures
            r.postings() == index.postings(),
            r.vocabulary() == index.vocabulary(),
            r.spec_points_count() == index.spec_points_count(),
            r.lengths() == lengths_of(index.docs()),
            index.wf() ==> r.wf(),
    {
        proof {
            index.lemma_fields();
        }
        let mut point_documents_tokens: Vec<Option<usize>> = Vec::new();
        let mut p: usize = 0;
        while p < index.point_to_docs.len()
            invariant
                p <= index.point_to_docs@.len(),
                point_documents_tokens@.len() == p,
                forall|k: int|
                    0 <= k < p ==> point_documents_tokens@[k] == lengths_of(
                        index.point_to_docs@,
                    )[k],
            decreases index.point_to_docs@.len() - p,
        {
            let length = match &index.point_to_docs[p] {
                Some(doc) => Some(doc.len()),
                None => None,
            };
            point_documents_tokens.push(length);
            p += 1;
        }
        proof {
            assert(point_documents_tokens@ =~= lengths_of(index.point_to_docs@));
            lemma_live_lengths_of_docs(index.point_to_docs@);
        }
        ImmutableInvertedIndex {
            postings: index.postings,
            vocab: index.vocab,
            point_documents_tokens,
            points_count: index.points_count,
        }
    }
}

impl FromSpecImpl<MutableInvertedIndex> for ImmutableInvertedIndex {
    open spec fn obeys_from_spec() -> bool {
        false
    }

    open spec fn from_spec(index: MutableInvertedIndex) -> Self {
        arbitrary()
    }
}

/// The built index matches a point against a query as the index it was built
/// from does, for every point that has a document, as long as no point was
/// indexed twice without being removed in between.
pub proof fn lemma_check_match_agrees(
    mutable: MutableInvertedIndex,
    immutable: ImmutableInvertedIndex,
    query: Seq<Option<TokenId>>,
    point_id: u32,
)
    requires
        mutable.wf(),
        mutable.paired(),
        immutable.postings() == mutable.postings(),
        immutable.lengths() == lengths_of(mutable.docs()),
        doc_at(mutable.docs(), point_id as int) is Some,
    ensures
        posting_match(immutable.postings(), immutable.lengths(), query, point_id) == query_matches(
            query,
            doc_at(mutable.docs(), point_id as int).unwrap()@,
        ),
{
    let doc = doc_at(mutable.docs(), point_id as int).unwrap();
    let postings = mutable.postings();
    assert(length_at(immutable.lengths(), point_id as int) is Some);
    if query_matches(query, doc@) {
        assert forall|i: int| 0 <= i < query.len() implies slot_points(
            postings,
            (#[trigger] query[i]).unwrap() as int,
        ).contains(point_id) by {
            let token = query[i].unwrap();
            let k = choose|k: int| 0 <= k < doc@.len() && doc@[k] == token;
            assert(mutable.docs()[point_id as int].unwrap()@[k] == token);
        }
    }
    if posting_match(postings, immutable.lengths(), query, point_id) {
        assert forall|i: int| 0 <= i < query.len() implies (#[trigger] query[i]) is Some
            && doc@.contains(query[i].unwrap()) by {
            let token = query[i].unwrap();
            assert(slot_points(postings, token as int).contains(point_id));
            assert(0 <= token < postings.len());
        }
    }
}

} // verus!

//! The index while it is being built: posting lists by token, and for each
//! point the document it was indexed with.

use vstd::prelude::*;
use vstd::multiset::Multiset;
use crate::document::{query_matches, Document, ParsedQuery, TokenId};
use crate::field_index::OperationError;
use crate::posting_list::PostingList;
use crate::posting_table::{add_point, remove_point, slot, slot_points, table_wf};
use crate::vocabulary::Vocabulary;

verus! {

/// The document of point `p`; `None` beyond the end of the table too.
pub open spec fn doc_at(docs: Seq<Option<Document>>, p: int) -> Option<Document> {
    if 0 <= p < docs.len() {
        docs[p]
    } else {
        None
    }
}

/// The number of points that have a document.
pub open spec fn live_points(docs: Seq<Option<Document>>) -> nat
    decreases docs.len(),
{
    if docs.len() == 0 {
        0
    } else {
        live_points(docs.drop_last()) + if docs.last() is Some {
            1nat
        } else {
            0nat
        }
    }
}

/// Every document of the table is ascending.
pub open spec fn docs_wf(docs: Seq<Option<Document>>) -> bool {
    forall|p: int| 0 <= p < docs.len() && (#[trigger] docs[p]) is Some ==> docs[p].unwrap().wf()
}

/// Every token of every document is below `words`, the number of words of a
/// vocabulary.
pub open spec fn tokens_below(docs: Seq<Option<Document>>, words: nat) -> bool {
    forall|p: int, k: int|
        0 <= p < docs.len() && docs[p] is Some && 0 <= k < docs[p].unwrap()@.len() ==> (
        #[trigger] docs[p].unwrap()@[k]) < words
}

/// Each token of each document has a posting list, and the list holds the
/// point of the document.
pub open spec fn forward_linked(
    postings: Seq<Option<PostingList>>,
    docs: Seq<Option<Document>>,
) -> bool {
    forall|p: int, k: int|
        0 <= p < docs.len() && docs[p] is Some && 0 <= k < docs[p].unwrap()@.len() ==> {
            let token = #[trigger] docs[p].unwrap()@[k];
            slot(postings, token as int) is Some && slot_points(postings, token as int).contains(
                p as u32,
            )
        }
}

/// Each point of each posting list has a document, and the document holds
/// the token of the list.
pub open spec fn backward_linked(
    postings: Seq<Option<PostingList>>,
    docs: Seq<Option<Document>>,
) -> bool {
    forall|t: int, p: u32|
        0 <= t < postings.len() && #[trigger] slot_points(postings, t).contains(p) ==> doc_at(
            docs,
            p as int,
        ) is Some && doc_at(docs, p as int).unwrap()@.contains(t as TokenId)
}

/// The documents after point `idx` was given `document`: the table reaches
/// up to the point, the point has its document, the others are as before.
pub open spec fn indexed_docs(
    before: Seq<Option<Document>>,
    after: Seq<Option<Document>>,
    idx: u32,
    document: Document,
) -> bool {
    &&& after.len() == if before.len() > idx {
        before.len() as int
    } else {
        idx + 1
    }
    &&& doc_at(after, idx as int) == Some(document)
    &&& forall|p: int| p != idx ==> doc_at(after, p) == doc_at(before, p)
}

/// The posting lists after point `idx` was indexed with `tokens`: the table
/// reaches up to the largest token, each token of the document has a list
/// with the point added, the others are as before.
pub open spec fn indexed_postings(
    before: Seq<Option<PostingList>>,
    after: Seq<Option<PostingList>>,
    tokens: Seq<TokenId>,
    idx: u32,
) -> bool {
    &&& after.len() == if tokens.len() == 0 || before.len() > tokens.last() {
        before.len() as int
    } else {
        tokens.last() + 1
    }
    &&& forall|t: int|
        0 <= t <= u32::MAX && tokens.contains(t as TokenId) ==> #[trigger] slot(after, t) is Some
            && slot_points(after, t) == slot_points(before, t).insert(idx)
    &&& forall|t: int|
        !(0 <= t <= u32::MAX && tokens.contains(t as TokenId)) ==> #[trigger] slot(after, t) == slot(
            before,
            t,
        )
}

/// The posting lists after point `idx`, indexed with `tokens`, was removed:
/// the lists of its tokens have lost the point, the others are as before.
pub open spec fn unindexed_postings(
    before: Seq<Option<PostingList>>,
    after: Seq<Option<PostingList>>,
    tokens: Seq<TokenId>,
    idx: u32,
) -> bool {
    &&& after.len() == before.len()
    &&& forall|t: int|
        0 <= t <= u32::MAX && tokens.contains(t as TokenId) ==> (#[trigger] slot(after, t) is Some
            <==> slot(before, t) is Some) && slot_points(after, t) == slot_points(before, t).remove(
            idx,
        )
    &&& forall|t: int|
        !(0 <= t <= u32::MAX && tokens.contains(t as TokenId)) ==> #[trigger] slot(after, t) == slot(
            before,
            t,
        )
}

/// What an index holds, apart from its words: for each token that has a
/// posting list the points of the list, for each point that has a document
/// its tokens, and the count of points.
pub struct IndexModel {
    pub slots: Map<TokenId, Set<u32>>,
    pub docs: Map<u32, Multiset<TokenId>>,
    pub points_count: nat,
}

/// The index without points.
pub open spec fn empty_model() -> IndexModel {
    IndexModel { slots: Map::empty(), docs: Map::empty(), points_count: 0 }
}

/// The points of token `t`; none where it has no posting list.
pub open spec fn model_points(model: IndexModel, t: TokenId) -> Set<u32> {
    if model.slots.contains_key(t) {
        model.slots[t]
    } else {
        Set::empty()
    }
}

/// The index after point `idx` was indexed with the tokens `doc`.
pub open spec fn model_index(model: IndexModel, idx: u32, doc: Multiset<TokenId>) -> IndexModel {
    IndexModel {
        slots: Map::new(
            |t: TokenId| model.slots.contains_key(t) || doc.count(t) > 0,
            |t: TokenId|
                if doc.count(t) > 0 {
                    model_points(model, t).insert(idx)
                } else {
                    model.slots[t]
                },
        ),
        docs: model.docs.insert(idx, doc),
        points_count: model.points_count + 1,
    }
}

/// The index after point `idx` was removed; as before where it has no
/// document.
pub open spec fn model_remove(model: IndexModel, idx: u32) -> IndexModel {
    if model.docs.contains_key(idx) {
        let doc = model.docs[idx];
        IndexModel {
            slots: Map::new(
                |t: TokenId| model.slots.contains_key(t),
                |t: TokenId|
                    if doc.count(t) > 0 {
                        model.slots[t].remove(idx)
                    } else {
                        model.slots[t]
                    },
            ),
            docs: model.docs.remove(idx),
            points_count: (model.points_count - 1) as nat,
        }
    } else {
        model
    }
}

/// The posting lists as a map from token to points.
pub open spec fn slots_of(postings: Seq<Option<PostingList>>) -> Map<TokenId, Set<u32>> {
    Map::new(
        |t: TokenId| slot(postings, t as int) is Some,
        |t: TokenId| slot_points(postings, t as int),
    )
}

/// The documents as a map from point to tokens.
pub open spec fn docs_of(docs: Seq<Option<Document>>) -> Map<u32, Multiset<TokenId>> {
    Map::new(
        |p: u32| doc_at(docs, p as int) is Some,
        |p: u32| doc_at(docs, p as int).unwrap()@.to_multiset(),
    )
}

/// Tables that are related as indexing a point relates them stand for
/// models that are related by `model_index`.
pub proof fn lemma_model_after_index(
    postings: Seq<Option<PostingList>>,
    postings_after: Seq<Option<PostingList>>,
    docs: Seq<Option<Document>>,
    docs_after: Seq<Option<Document>>,
    idx: u32,
    document: Document,
    count: nat,
)
    requires
        indexed_docs(docs, docs_after, idx, document),
        indexed_postings(postings, postings_after, document@, idx),
    ensures
        (IndexModel {
            slots: slots_of(postings_after),
            docs: docs_of(docs_after),
            points_count: count + 1,
        }) == model_index(
            IndexModel { slots: slots_of(postings), docs: docs_of(docs), points_count: count },
            idx,
            document@.to_multiset(),
        ),
{
    let tokens = document@.to_multiset();
    let before = IndexModel { slots: slots_of(postings), docs: docs_of(docs), points_count: count };
    let want = model_index(before, idx, tokens);
    document@.to_multiset_ensures();
    assert forall|t: TokenId| slots_of(postings_after).contains_key(t) <==> want.slots.contains_key(
        t,
    ) by {
        assert(tokens.count(t) > 0 <==> document@.contains(t));
        if document@.contains(t) {
            assert(slot(postings_after, t as int) is Some);
        } else {
            assert(slot(postings_after, t as int) == slot(postings, t as int));
        }
    }
    assert forall|t: TokenId| slots_of(postings_after).contains_key(t) implies slots_of(
        postings_after,
    )[t] == want.slots[t] by {
        assert(tokens.count(t) > 0 <==> document@.contains(t));
        if document@.contains(t) {
            assert(slot(postings_after, t as int) is Some);
        } else {
            assert(slot(postings_after, t as int) == slot(postings, t as int));
        }
    }
    assert(slots_of(postings_after) =~= want.slots);
    assert forall|p: u32| docs_of(docs_after).contains_key(p) <==> want.docs.contains_key(p) by {
        if p != idx {
            assert(doc_at(docs_after, p as int) == doc_at(docs, p as int));
        }
    }
    assert forall|p: u32| docs_of(docs_after).contains_key(p) implies docs_of(docs_after)[p]
        == want.docs[p] by {
        if p != idx {
            assert(doc_at(docs_after, p as int) == doc_at(docs, p as int));
        }
    }
    assert(docs_of(docs_after) =~= want.docs);
}

/// Tables that are related as removing a point relates them stand for models
/// that are related by `model_remove`.
pub proof fn lemma_model_after_remove(
    postings: Seq<Option<PostingList>>,
    postings_after: Seq<Option<PostingList>>,
    docs: Seq<Option<Document>>,
    idx: u32,
    count: nat,
)
    requires
        doc_at(docs, idx as int) is Some,
        forward_linked(postings, docs),
        unindexed_postings(postings, postings_after, docs[idx as int].unwrap()@, idx),
        count >= 1,
    ensures
        (IndexModel {
            slots: slots_of(postings_after),
            docs: docs_of(docs.update(idx as int, None)),
            points_count: (count - 1) as nat,
        }) == model_remove(
            IndexModel { slots: slots_of(postings), docs: docs_of(docs), points_count: count },
            idx,
        ),
{
    let document = docs[idx as int].unwrap();
    let tokens = document@.to_multiset();
    let before = IndexModel { slots: slots_of(postings), docs: docs_of(docs), points_count: count };
    let want = model_remove(before, idx);
    let docs_after = docs.update(idx as int, None);
    document@.to_multiset_ensures();
    assert(before.docs.contains_key(idx));
    assert forall|t: TokenId| slots_of(postings_after).contains_key(t) <==> want.slots.contains_key(
        t,
    ) by {
        if document@.contains(t) {
            assert(slot(postings_after, t as int) is Some <==> slot(postings, t as int) is Some);
        } else {
            assert(slot(postings_after, t as int) == slot(postings, t as int));
        }
    }
    assert forall|t: TokenId| slots_of(postings_after).contains_key(t) implies slots_of(
        postings_after,
    )[t] == want.slots[t] by {
        assert(tokens.count(t) > 0 <==> document@.contains(t));
        if document@.contains(t) {
            assert(slot(postings_after, t as int) is Some <==> slot(postings, t as int) is Some);
        } else {
            assert(slot(postings_after, t as int) == slot(postings, t as int));
        }
    }
    assert(slots_of(postings_after) =~= want.slots);
    assert forall|p: u32| docs_of(docs_after).contains_key(p) <==> want.docs.contains_key(p) by {
        if p != idx {
            assert(doc_at(docs_after, p as int) == doc_at(docs, p as int));
        }
    }
    assert forall|p: u32| docs_of(docs_after).contains_key(p) implies docs_of(docs_after)[p]
        == want.docs[p] by {
        assert(p != idx);
        assert(doc_at(docs_after, p as int) == doc_at(docs, p as int));
    }
    assert(docs_of(docs_after) =~= want.docs);
}

/// Giving a point a document changes the number of live points by what the
/// slot held before and holds after.
pub proof fn lemma_live_points_update(docs: Seq<Option<Document>>, p: int, doc: Option<Document>)
    requires
        0 <= p < docs.len(),
    ensures
        live_points(docs.update(p, doc)) + (if docs[p] is Some {
            1nat
        } else {
            0nat
        }) == live_points(docs) + (if doc is Some {
            1nat
        } else {
            0nat
        }),
    decreases docs.len(),
{
    let after = docs.update(p, doc);
    if p == docs.len() - 1 {
        assert(after.drop_last() =~= docs.drop_last());
    } else {
        lemma_live_points_update(docs.drop_last(), p, doc);
        assert(after.drop_last() =~= docs.drop_last().update(p, doc));
    }
}

/// A table that holds a document has a live point.
pub proof fn lemma_live_points_positive(docs: Seq<Option<Document>>, p: int)
    requires
        0 <= p < docs.len(),
        docs[p] is Some,
    ensures
        live_points(docs) >= 1,
    decreases docs.len(),
{
    if p < docs.len() - 1 {
        lemma_live_points_positive(docs.drop_last(), p);
    }
}

/// The index in its building phase.
pub struct MutableInvertedIndex {
    pub(crate) postings: Vec<Option<PostingList>>,
    pub(crate) vocab: Vocabulary,
    pub(crate) point_to_docs: Vec<Option<Document>>,
    pub(crate) points_count: usize,
}

impl Default for MutableInvertedIndex {
    /// The index without points and without words.
    fn default() -> (r: Self)
        ensures
            r.wf(),
            r.paired(),
            r.postings().len() == 0,
            r.docs().len() == 0,
            r.vocabulary()@.len() == 0,
            r.spec_points_count() == 0,
            r.model() == empty_model(),
    {
        let r = MutableInvertedIndex {
            postings: Vec::new(),
            vocab: Vocabulary::new(),
            point_to_docs: Vec::new(),
            points_count: 0,
        };
        proof {
            assert(r.model().slots =~= empty_model().slots);
            assert(r.model().docs =~= empty_model().docs);
        }
        r
    }
}

impl MutableInvertedIndex {
    /// The posting lists by token id.
    pub closed spec fn postings(&self) -> Seq<Option<PostingList>> {
        self.postings@
    }

    /// The documents by point id.
    pub closed spec fn docs(&self) -> Seq<Option<Document>> {
        self.point_to_docs@
    }

    /// The words of the index.
    pub closed spec fn vocabulary(&self) -> Vocabulary {
        self.vocab
    }

    /// The count of points that the index keeps.
    pub closed spec fn spec_points_count(&self) -> nat {
        self.points_count as nat
    }

    /// The accessors are the fields.
    pub(crate) proof fn lemma_fields(&self)
        ensures
            self.postings() == self.postings@,
            self.docs() == self.point_to_docs@,
            self.vocabulary() == self.vocab,
            self.spec_points_count() == self.points_count,
    {
    }

    /// What holds of the index whatever was done to it: its lists and
    /// documents are ascending, every token of a document has a posting list
    /// that holds the point, and the count is not below the number of points
    /// that have a document.
    pub open spec fn wf(&self) -> bool {
        &&& self.vocabulary().wf()
        &&& table_wf(self.postings())
        &&& docs_wf(self.docs())
        &&& forward_linked(self.postings(), self.docs())
        &&& live_points(self.docs()) <= self.spec_points_count()
        &&& self.docs().len() <= u32::MAX + 1
        &&& self.postings().len() <= u32::MAX + 1
    }

    /// Every token of every document is a token of the vocabulary. This
    /// holds as long as documents are indexed that were made from words by
    /// this index.
    pub open spec fn tokens_known(&self) -> bool {
        tokens_below(self.docs(), self.vocabulary()@.len())
    }

    /// What the index holds, apart from its words.
    pub open spec fn model(&self) -> IndexModel {
        IndexModel {
            slots: slots_of(self.postings()),
            docs: docs_of(self.docs()),
            points_count: self.spec_points_count(),
        }
    }

    /// What holds as long as no point was indexed twice without being removed
    /// in between: the count is the number of points that have a document,
    /// and a posting list holds no point but those whose document holds its
    /// token.
    pub open spec fn paired(&self) -> bool {
        &&& self.spec_points_count() == live_points(self.docs())
        &&& backward_linked(self.postings(), self.docs())
    }

    /// The count of points: one for each call that indexed a point, less one
    /// for each that removed one.
    pub fn points_count(&self) -> (n: usize)
        ensures
            n == self.spec_points_count(),
    {
        self.points_count
    }

    /// Indexes point `idx` with `document`: the point is added to the posting
    /// list of each token, the document is kept for the point, and the count
    /// goes up by one, also where the point had a document already.
    pub fn index_document(&mut self, idx: u32, document: Document) -> (r: Result<
        (),
        OperationError,
    >)
        requires
            old(self).wf(),
            document.wf(),
            old(self).spec_points_count() < usize::MAX,
            idx < usize::MAX,
            forall|k: int| 0 <= k < document@.len() ==> document@[k] < usize::MAX,
        ensures
            r is Ok,
            final(self).wf(),
            final(self).vocabulary() == old(self).vocabulary(),
            final(self).spec_points_count() == old(self).spec_points_count() + 1,
            indexed_docs(old(self).docs(), final(self).docs(), idx, document),
            indexed_postings(old(self).postings(), final(self).postings(), document@, idx),
            final(self).model() == model_index(old(self).model(), idx, document@.to_multiset()),
            old(self).paired() && doc_at(old(self).docs(), idx as int) is None ==> final(self).paired(),
            forall|words: nat|
                tokens_below(old(self).docs(), words) && (forall|k: int|
                    0 <= k < document@.len() ==> document@[k] < words) ==> #[trigger] tokens_below(
                    final(self).docs(),
                    words,
                ),
    {
        self.points_count += 1;
        while self.point_to_docs.len() <= idx as usize
            invariant
                idx < usize::MAX,
                self.postings == old(self).postings,
                self.vocab == old(self).vocab,
                self.points_count == old(self).points_count + 1,
                self.point_to_docs@.len() >= old(self).point_to_docs@.len(),
                self.point_to_docs@.len() <= old(self).point_to_docs@.len()
                    || self.point_to_docs@.len() <= idx + 1,
                forall|p: int|
                    doc_at(self.point_to_docs@, p) == doc_at(old(self).point_to_docs@, p),
                live_points(self.point_to_docs@) == live_points(old(self).point_to_docs@),
            decreases idx + 1 - self.point_to_docs@.len(),
        {
            proof {
                assert(self.point_to_docs@.push(None).drop_last() =~= self.point_to_docs@);
            }
            self.point_to_docs.push(None);
        }
        let ghost grown = self.point_to_docs@;
        let tokens = document.tokens();
        let mut i: usize = 0;
        while i < tokens.len()
            invariant
                i <= tokens@.len(),
                tokens@ == document@,
                document.wf(),
                forall|k: int| 0 <= k < document@.len() ==> document@[k] < usize::MAX,
                table_wf(self.postings@),
                self.vocab == old(self).vocab,
                self.points_count == old(self).points_count + 1,
                self.point_to_docs@ == grown,
                self.postings@.len() == if i == 0 || old(self).postings@.len() > tokens@[i - 1] {
                    old(self).postings@.len() as int
                } else {
                    tokens@[i - 1] + 1
                },
                forall|t: int|
                    0 <= t <= u32::MAX && tokens@.take(i as int).contains(t as TokenId)
                        ==> #[trigger] slot(self.postings@, t) is Some && slot_points(
                        self.postings@,
                        t,
                    ) == slot_points(old(self).postings@, t).insert(idx),
                forall|t: int|
                    !(0 <= t <= u32::MAX && tokens@.take(i as int).contains(t as TokenId))
                        ==> #[trigger] slot(self.postings@, t) == slot(old(self).postings@, t),
            decreases tokens@.len() - i,
        {
            let token: TokenId = tokens[i];
            let ghost before = self.postings@;
            let ghost seen = tokens@.take(i as int);
            add_point(&mut self.postings, token, idx);
            proof {
                let now = tokens@.take(i + 1);
                assert(now =~= seen.push(token));
                assert forall|t: int|
                    0 <= t <= u32::MAX && now.contains(t as TokenId) implies #[trigger] slot(
                    self.postings@,
                    t,
                ) is Some && slot_points(self.postings@, t) == slot_points(
                    old(self).postings@,
                    t,
                ).insert(idx) by {
                    if t == token {
                        if seen.contains(token) {
                            assert(slot_points(before, t) == slot_points(
                                old(self).postings@,
                                t,
                            ).insert(idx));
                            assert(slot_points(before, t).insert(idx) =~= slot_points(before, t));
                        } else {
                            assert(slot(before, t) == slot(old(self).postings@, t));
                        }
                    } else {
                        let w = choose|w: int| 0 <= w < now.len() && now[w] == t as TokenId;
                        assert(w < seen.len());
                        assert(seen[w] == t as TokenId);
                        assert(seen.contains(t as TokenId));
                        assert(slot(self.postings@, t) == slot(before, t));
                    }
                }
                assert forall|t: int|
                    !(0 <= t <= u32::MAX && now.contains(t as TokenId)) implies #[trigger] slot(
                    self.postings@,
                    t,
                ) == slot(old(self).postings@, t) by {
                    assert(now[i as int] == token);
                    assert(t != token);
                    if 0 <= t <= u32::MAX && seen.contains(t as TokenId) {
                        let w = choose|w: int| 0 <= w < seen.len() && seen[w] == t as TokenId;
                        assert(now[w] == t as TokenId);
                    }
                    assert(slot(self.postings@, t) == slot(before, t));
                }
                if i > 0 {
                    assert(tokens@[i - 1] <= tokens@[i as int]);
                }
            }
            i += 1;
        }
        proof {
            assert(tokens@.take(i as int) =~= tokens@);
            lemma_live_points_update(grown, idx as int, Some(document));
        }
        let ghost linked = self.postings@;
        self.point_to_docs[idx as usize] = Some(document);
        proof {
            let docs = self.point_to_docs@;
            assert(docs == grown.update(idx as int, Some(document)));
            assert forall|p: int| p != idx implies doc_at(docs, p) == doc_at(
                old(self).point_to_docs@,
                p,
            ) by {
                assert(doc_at(grown, p) == doc_at(old(self).point_to_docs@, p));
            }
            assert forall|p: int, k: int|
                0 <= p < docs.len() && docs[p] is Some && 0 <= k < docs[p].unwrap()@.len() implies {
                let token = #[trigger] docs[p].unwrap()@[k];
                slot(linked, token as int) is Some && slot_points(linked, token as int).contains(
                    p as u32,
                )
            } by {
                let token = docs[p].unwrap()@[k];
                if p == idx {
                    assert(document@.contains(token));
                    assert(slot(linked, token as int) is Some);
                } else {
                    assert(doc_at(grown, p) == doc_at(old(self).point_to_docs@, p));
                    assert(old(self).point_to_docs@[p] == docs[p]);
                    assert(old(self).point_to_docs@[p].unwrap()@[k] == token);
                    assert(slot_points(old(self).postings@, token as int).contains(p as u32));
                    if document@.contains(token) {
                        assert(slot(linked, token as int) is Some);
                    } else {
                        assert(slot(linked, token as int) == slot(
                            old(self).postings@,
                            token as int,
                        ));
                    }
                }
            }
            if old(self).paired() && doc_at(old(self).docs(), idx as int) is None {
                assert(doc_at(grown, idx as int) == doc_at(old(self).point_to_docs@, idx as int));
                assert forall|t: int, p: u32|
                    0 <= t < linked.len() && #[trigger] slot_points(linked, t).contains(
                        p,
                    ) implies doc_at(docs, p as int) is Some && doc_at(
                    docs,
                    p as int,
                ).unwrap()@.contains(t as TokenId) by {
                    if document@.contains(t as TokenId) {
                        assert(slot(linked, t) is Some);
                        if p != idx {
                            assert(slot_points(old(self).postings@, t).contains(p));
                            assert(doc_at(docs, p as int) == doc_at(
                                old(self).point_to_docs@,
                                p as int,
                            ));
                        }
                    } else {
                        assert(slot(linked, t) == slot(old(self).postings@, t));
                        assert(slot_points(old(self).postings@, t).contains(p));
                        assert(doc_at(old(self).point_to_docs@, p as int) is Some);
                        assert(p != idx);
                        assert(doc_at(docs, p as int) == doc_at(
                            old(self).point_to_docs@,
                            p as int,
                        ));
                    }
                }
            }
            assert forall|words: nat|
                tokens_below(old(self).point_to_docs@, words) && (forall|k: int|
                    0 <= k < document@.len() ==> document@[k] < words) implies #[trigger] tokens_below(
                docs,
                words,
            ) by {
                assert forall|p: int, k: int|
                    0 <= p < docs.len() && docs[p] is Some && 0 <= k
                        < docs[p].unwrap()@.len() implies (#[trigger] docs[p].unwrap()@[k])
                    < words by {
                    if p != idx {
                        assert(doc_at(grown, p) == doc_at(old(self).point_to_docs@, p));
                        assert(old(self).point_to_docs@[p] == docs[p]);
                        assert(old(self).point_to_docs@[p].unwrap()@[k] < words);
                    }
                }
            }
            lemma_model_after_index(
                old(self).postings@,
                linked,
                old(self).point_to_docs@,
                docs,
                idx,
                document,
                old(self).points_count as nat,
            );
        }
        Ok(())
    }

    /// Removes the document of point `idx` and takes the point out of the
    /// posting list of each of its tokens. Answers whether the point had a
    /// document; where it had none, nothing changes.
    pub fn remove_document(&mut self, idx: u32) -> (removed: bool)
        requires
            old(self).wf(),
        ensures
            final(self).wf(),
            removed == (doc_at(old(self).docs(), idx as int) is Some),
            final(self).vocabulary() == old(self).vocabulary(),
            !removed ==> final(self).docs() == old(self).docs() && final(self).postings() == old(self).postings() && final(self).spec_points_count() == old(self).spec_points_count(),
            removed ==> final(self).spec_points_count() == old(self).spec_points_count() - 1
                && final(self).docs() == old(self).docs().update(idx as int, None)
                && unindexed_postings(
                old(self).postings(),
                final(self).postings(),
                old(self).docs()[idx as int].unwrap()@,
                idx,
            ),
            final(self).model() == model_remove(old(self).model(), idx),
            old(self).paired() ==> final(self).paired(),
            forall|words: nat|
                tokens_below(old(self).docs(), words) ==> #[trigger] tokens_below(
                    final(self).docs(),
                    words,
                ),
    {
        if self.point_to_docs.len() <= idx as usize {
            return false;
        }
        let mut taken: Option<Document> = None;
        core::mem::swap(&mut taken, &mut self.point_to_docs[idx as usize]);
        let removed_doc = match taken {
            Some(doc) => doc,
            None => {
                assert(self.point_to_docs@ =~= old(self).point_to_docs@);
                return false;
            },
        };
        proof {
            lemma_live_points_positive(old(self).point_to_docs@, idx as int);
            lemma_live_points_update(old(self).point_to_docs@, idx as int, None);
        }
        self.points_count -= 1;
        let tokens = removed_doc.tokens();
        let mut i: usize = 0;
        while i < tokens.len()
            invariant
                i <= tokens@.len(),
                tokens@ == removed_doc@,
                Some(removed_doc) == old(self).point_to_docs@[idx as int],
                idx < old(self).point_to_docs@.len(),
                forward_linked(old(self).postings@, old(self).point_to_docs@),
                table_wf(self.postings@),
                self.vocab == old(self).vocab,
                self.points_count == old(self).points_count - 1,
                self.point_to_docs@ == old(self).point_to_docs@.update(idx as int, None),
                self.postings@.len() == old(self).postings@.len(),
                forall|t: int|
                    0 <= t <= u32::MAX && tokens@.take(i as int).contains(t as TokenId) ==> (
                    #[trigger] slot(self.postings@, t) is Some <==> slot(
                        old(self).postings@,
                        t,
                    ) is Some) && slot_points(self.postings@, t) == slot_points(
                        old(self).postings@,
                        t,
                    ).remove(idx),
                forall|t: int|
                    !(0 <= t <= u32::MAX && tokens@.take(i as int).contains(t as TokenId))
                        ==> #[trigger] slot(self.postings@, t) == slot(old(self).postings@, t),
            decreases tokens@.len() - i,
        {
            let removed_token: TokenId = tokens[i];
            let ghost before = self.postings@;
            let ghost seen = tokens@.take(i as int);
            proof {
                let token = old(self).point_to_docs@[idx as int].unwrap()@[i as int];
                assert(slot(old(self).postings@, token as int) is Some);
            }
            remove_point(&mut self.postings, removed_token, idx);
            proof {
                let now = tokens@.take(i + 1);
                assert(now =~= seen.push(removed_token));
                assert forall|t: int|
                    0 <= t <= u32::MAX && now.contains(t as TokenId) implies (#[trigger] slot(
                    self.postings@,
                    t,
                ) is Some <==> slot(old(self).postings@, t) is Some) && slot_points(
                    self.postings@,
                    t,
                ) == slot_points(old(self).postings@, t).remove(idx) by {
                    if t == removed_token {
                        if seen.contains(removed_token) {
                            assert(slot_points(before, t).remove(idx) =~= slot_points(before, t));
                        } else {
                            assert(slot(before, t) == slot(old(self).postings@, t));
                        }
                    } else {
                        let w = choose|w: int| 0 <= w < now.len() && now[w] == t as TokenId;
                        assert(seen[w] == t as TokenId);
                        assert(seen.contains(t as TokenId));
                        assert(slot(self.postings@, t) == slot(before, t));
                    }
                }
                assert forall|t: int|
                    !(0 <= t <= u32::MAX && now.contains(t as TokenId)) implies #[trigger] slot(
                    self.postings@,
                    t,
                ) == slot(old(self).postings@, t) by {
                    assert(now[i as int] == removed_token);
                    if 0 <= t <= u32::MAX && seen.contains(t as TokenId) {
                        let w = choose|w: int| 0 <= w < seen.len() && seen[w] == t as TokenId;
                        assert(now[w] == t as TokenId);
                    }
                    assert(slot(self.postings@, t) == slot(before, t));
                }
            }
            i += 1;
        }
        proof {
            assert(tokens@.take(i as int) =~= tokens@);
            let docs = self.point_to_docs@;
            let posts = self.postings@;
            assert forall|words: nat|
                tokens_below(old(self).point_to_docs@, words) implies #[trigger] tokens_below(
                docs,
                words,
            ) by {
                assert forall|p: int, k: int|
                    0 <= p < docs.len() && docs[p] is Some && 0 <= k
                        < docs[p].unwrap()@.len() implies (#[trigger] docs[p].unwrap()@[k])
                    < words by {
                    assert(old(self).point_to_docs@[p] == docs[p]);
                    assert(old(self).point_to_docs@[p].unwrap()@[k] < words);
                }
            }
            lemma_model_after_remove(
                old(self).postings@,
                posts,
                old(self).point_to_docs@,
                idx,
                old(self).points_count as nat,
            );
            assert forall|p: int, k: int|
                0 <= p < docs.len() && docs[p] is Some && 0 <= k < docs[p].unwrap()@.len() implies {
                let token = #[trigger] docs[p].unwrap()@[k];
                slot(posts, token as int) is Some && slot_points(posts, token as int).contains(
                    p as u32,
                )
            } by {
                let token = docs[p].unwrap()@[k];
                assert(p != idx);
                assert(old(self).point_to_docs@[p] == docs[p]);
                assert(old(self).point_to_docs@[p].unwrap()@[k] == token);
                assert(slot_points(old(self).postings@, token as int).contains(p as u32));
                if tokens@.contains(token) {
                    assert(slot(posts, token as int) is Some <==> slot(
                        old(self).postings@,
                        token as int,
                    ) is Some);
                } else {
                    assert(slot(posts, token as int) == slot(old(self).postings@, token as int));
                }
            }
            if old(self).paired() {
                assert forall|t: int, p: u32|
                    0 <= t < posts.len() && #[trigger] slot_points(posts, t).contains(
                        p,
                    ) implies doc_at(docs, p as int) is Some && doc_at(
                    docs,
                    p as int,
                ).unwrap()@.contains(t as TokenId) by {
                    if tokens@.contains(t as TokenId) {
                        assert(slot(posts, t) is Some <==> slot(old(self).postings@, t) is Some);
                        assert(slot_points(old(self).postings@, t).contains(p));
                        assert(p != idx);
                    } else {
                        assert(slot(posts, t) == slot(old(self).postings@, t));
                        assert(slot_points(old(self).postings@, t).contains(p));
                        assert(doc_at(old(self).point_to_docs@, p as int) is Some);
                        if p == idx {
                            assert(doc_at(old(self).point_to_docs@, p as int).unwrap()@
                                == tokens@);
                        }
                    }
                }
            }
        }
        true
    }

    /// The number of tokens of point `point_id`, 0 where it has no document.
    pub fn values_count(&self, point_id: u32) -> (n: usize)
        ensures
            n == match doc_at(self.docs(), point_id as int) {
                Some(doc) => doc@.len(),
                None => 0,
            },
    {
        match self.get_doc(point_id) {
            Some(doc) => doc.len(),
            None => 0,
        }
    }

    /// Whether point `point_id` has no token: it has no document, or an empty
    /// one.
    pub fn values_is_empty(&self, point_id: u32) -> (b: bool)
        ensures
            b == match doc_at(self.docs(), point_id as int) {
                Some(doc) => doc@.len() == 0,
                None => true,
            },
    {
        match self.get_doc(point_id) {
            Some(doc) => doc.is_empty(),
            None => true,
        }
    }

    /// Whether point `point_id` has a document that holds every word of the
    /// query.
    pub fn check_match(&self, parsed_query: &ParsedQuery, point_id: u32) -> (b: bool)
        requires
            self.wf(),
        ensures
            b == match doc_at(self.docs(), point_id as int) {
                Some(doc) => query_matches(parsed_query.tokens@, doc@),
                None => false,
            },
    {
        if let Some(doc) = self.get_doc(point_id) {
            assert(self.docs()[point_id as int] is Some);
            parsed_query.check_match(doc)
        } else {
            false
        }
    }

    /// The document of point `idx`.
    fn get_doc(&self, idx: u32) -> (doc: Option<&Document>)
        ensures
            match doc {
                Some(d) => doc_at(self.docs(), idx as int) == Some(*d),
                None => doc_at(self.docs(), idx as int) is None,
            },
    {
        if (idx as usize) < self.point_to_docs.len() {
            self.point_to_docs[idx as usize].as_ref()
        } else {
            None
        }
    }
}

} // verus!

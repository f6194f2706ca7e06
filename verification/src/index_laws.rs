//! What holds of the index across its operations.

use vstd::prelude::*;
use vstd::multiset::Multiset;
use crate::cardinality::expected_matches;
use crate::document::{Document, TokenId};
use crate::inverted_index::{estimated, posting_lens, smallest};
use crate::mutable_index::{
    doc_at, docs_of, indexed_postings, live_points, model_index, model_remove, IndexModel,
};
use crate::posting_list::PostingList;
use crate::posting_table::{all_have_postings, matching_points, slot, slot_points, table_wf};

verus! {

/// One change of the index: a point is indexed with tokens, or removed.
pub enum IndexOp {
    Index(u32, Multiset<TokenId>),
    Remove(u32),
}

/// The index after one change.
pub open spec fn applied(model: IndexModel, op: IndexOp) -> IndexModel {
    match op {
        IndexOp::Index(idx, doc) => model_index(model, idx, doc),
        IndexOp::Remove(idx) => model_remove(model, idx),
    }
}

/// The index after the changes, one after the other.
pub open spec fn applied_all(model: IndexModel, ops: Seq<IndexOp>) -> IndexModel
    decreases ops.len(),
{
    if ops.len() == 0 {
        model
    } else {
        applied(applied_all(model, ops.drop_last()), ops.last())
    }
}

/// No change indexes a point that has a document at that moment: every
/// point is removed before it is indexed again.
pub open spec fn indexes_absent_points(model: IndexModel, ops: Seq<IndexOp>) -> bool
    decreases ops.len(),
{
    if ops.len() == 0 {
        true
    } else {
        &&& indexes_absent_points(model, ops.drop_last())
        &&& ops.last() matches IndexOp::Index(idx, _) ==> !applied_all(
            model,
            ops.drop_last(),
        ).docs.contains_key(idx)
    }
}

/// The count of points is the number of points that have a document.
pub open spec fn counts_documents(model: IndexModel) -> bool {
    model.docs.dom().finite() && model.points_count == model.docs.dom().len()
}

/// After any changes that index no point twice without removing it in
/// between, the count of points is the number of points that have a
/// document.
pub proof fn lemma_points_count_is_number_of_points(model: IndexModel, ops: Seq<IndexOp>)
    requires
        counts_documents(model),
        indexes_absent_points(model, ops),
    ensures
        counts_documents(applied_all(model, ops)),
    decreases ops.len(),
{
    if ops.len() > 0 {
        lemma_points_count_is_number_of_points(model, ops.drop_last());
        let before = applied_all(model, ops.drop_last());
        match ops.last() {
            IndexOp::Index(idx, doc) => {
                assert(model_index(before, idx, doc).docs.dom() =~= before.docs.dom().insert(idx));
            },
            IndexOp::Remove(idx) => {
                if before.docs.contains_key(idx) {
                    assert(model_remove(before, idx).docs.dom() =~= before.docs.dom().remove(idx));
                }
            },
        }
    }
}

/// The points that have a document are as many as the table counts.
pub proof fn lemma_live_points_is_number_of_documents(docs: Seq<Option<Document>>)
    requires
        docs.len() <= u32::MAX + 1,
    ensures
        docs_of(docs).dom().finite(),
        docs_of(docs).dom().len() == live_points(docs),
    decreases docs.len(),
{
    if docs.len() == 0 {
        assert(docs_of(docs).dom() =~= Set::<u32>::empty());
    } else {
        let rest = docs.drop_last();
        let top = (docs.len() - 1) as u32;
        lemma_live_points_is_number_of_documents(rest);
        assert forall|p: u32| p != top implies (docs_of(docs).dom().contains(p) <==> docs_of(
            rest,
        ).dom().contains(p)) by {
            assert(doc_at(docs, p as int) == doc_at(rest, p as int));
        }
        assert(!docs_of(rest).dom().contains(top));
        if docs.last() is Some {
            assert(docs_of(docs).dom() =~= docs_of(rest).dom().insert(top));
        } else {
            assert(docs_of(docs).dom() =~= docs_of(rest).dom());
        }
    }
}

/// After a point was indexed, each of its tokens finds it.
pub proof fn lemma_indexed_point_is_found(
    before: Seq<Option<PostingList>>,
    after: Seq<Option<PostingList>>,
    tokens: Seq<TokenId>,
    idx: u32,
    token: TokenId,
)
    requires
        indexed_postings(before, after, tokens, idx),
        tokens.contains(token),
    ensures
        matching_points(after, seq![Some(token)]).contains(idx),
{
    let query = seq![Some(token)];
    assert(slot(after, token as int) is Some);
    assert(slot_points(after, token as int).contains(idx));
    assert(all_have_postings(after, query));
}

/// A query finds the points that stand in the posting lists of all its
/// words, and no point where a word is unknown.
pub proof fn lemma_filter_is_intersection(
    postings: Seq<Option<PostingList>>,
    query: Seq<Option<TokenId>>,
    p: u32,
)
    ensures
        matching_points(postings, query).contains(p) <==> query.len() > 0 && forall|i: int|
            0 <= i < query.len() ==> (#[trigger] query[i]) is Some && slot_points(
                postings,
                query[i].unwrap() as int,
            ).contains(p),
        (exists|i: int| 0 <= i < query.len() && query[i] is None) ==> matching_points(
            postings,
            query,
        ) == Set::<u32>::empty(),
{
    if query.len() > 0 && (forall|i: int|
        0 <= i < query.len() ==> (#[trigger] query[i]) is Some && slot_points(
            postings,
            query[i].unwrap() as int,
        ).contains(p)) {
        assert forall|i: int| 0 <= i < query.len() implies (#[trigger] query[i]) is Some && slot(
            postings,
            query[i].unwrap() as int,
        ) is Some by {
            assert(slot_points(postings, query[i].unwrap() as int).contains(p));
        }
    }
}

/// The least of the lengths is one of them and not above any.
pub proof fn lemma_smallest(lens: Seq<usize>)
    requires
        lens.len() > 0,
    ensures
        forall|i: int| 0 <= i < lens.len() ==> smallest(lens) <= lens[i],
        exists|i: int| 0 <= i < lens.len() && smallest(lens) == lens[i],
    decreases lens.len(),
{
    if lens.len() == 1 {
        assert(smallest(lens) == lens[0]);
    } else {
        let rest = lens.drop_last();
        lemma_smallest(rest);
        let w = choose|i: int| 0 <= i < rest.len() && smallest(rest) == rest[i];
        assert(rest[w] == lens[w]);
        assert forall|i: int| 0 <= i < lens.len() implies smallest(lens) <= lens[i] by {
            if i < rest.len() {
                assert(rest[i] == lens[i]);
            }
        }
        if lens.last() < smallest(rest) {
            assert(smallest(lens) == lens[lens.len() - 1]);
        } else {
            assert(smallest(lens) == lens[w]);
        }
    }
}

/// The estimate holds the number of matches: a query matches at least `min`
/// and at most `max` points, and a query of one word exactly as many as its
/// posting list holds, which is then `min`, `exp` and `max`.
pub proof fn lemma_estimate_bounds_matches(
    postings: Seq<Option<PostingList>>,
    points_count: nat,
    query: Seq<Option<TokenId>>,
)
    requires
        table_wf(postings),
    ensures
        matching_points(postings, query).finite(),
        estimated(postings, points_count, query).min <= matching_points(postings, query).len()
            <= estimated(postings, points_count, query).max,
        query.len() == 1 && all_have_postings(postings, query) ==> {
            let len = slot(postings, query[0].unwrap() as int).unwrap()@.len();
            &&& estimated(postings, points_count, query).min == len
            &&& estimated(postings, points_count, query).exp == len
            &&& estimated(postings, points_count, query).max == len
            &&& matching_points(postings, query).len() == len
        },
{
    let found = matching_points(postings, query);
    if query.len() == 0 || !all_have_postings(postings, query) {
        assert(found =~= Set::<u32>::empty());
    } else {
        let lens = posting_lens(postings, query);
        lemma_smallest(lens);
        let w = choose|i: int| 0 <= i < lens.len() && smallest(lens) == lens[i];
        assert(query[w] is Some);
        let posting = slot(postings, query[w].unwrap() as int).unwrap();
        assert(postings[query[w].unwrap() as int] is Some);
        assert(posting.wf());
        let points = posting@.to_set();
        assert(posting@.no_duplicates());
        posting@.unique_seq_to_set();
        vstd::seq_lib::seq_to_set_is_finite(posting@);
        assert(slot_points(postings, query[w].unwrap() as int) == points);
        assert(found.subset_of(points)) by {
            assert forall|p: u32| found.contains(p) implies points.contains(p) by {
                assert(slot_points(postings, query[w].unwrap() as int).contains(p));
            }
        }
        vstd::set_lib::lemma_len_subset(found, points);
        posting.lemma_len_fits();
        assert(lens[w] == posting@.len());
        if query.len() == 1 {
            assert(w == 0);
            assert forall|p: u32| points.contains(p) implies found.contains(p) by {
                assert forall|i: int| 0 <= i < query.len() implies slot_points(
                    postings,
                    (#[trigger] query[i]).unwrap() as int,
                ).contains(p) by {
                    assert(i == 0);
                }
            }
            assert(found =~= points);
        }
    }
}

} // verus!

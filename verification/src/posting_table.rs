//! The table of posting lists, one slot per token id. A slot is empty while
//! its token has never been indexed.

use vstd::prelude::*;
use crate::document::{ParsedQuery, TokenId};
use crate::posting_list::PostingList;

verus! {

/// The posting list of token `t`; `None` beyond the end of the table too.
pub open spec fn slot(postings: Seq<Option<PostingList>>, t: int) -> Option<PostingList> {
    if 0 <= t < postings.len() {
        postings[t]
    } else {
        None
    }
}

/// The points that hold token `t`.
pub open spec fn slot_points(postings: Seq<Option<PostingList>>, t: int) -> Set<u32> {
    match slot(postings, t) {
        Some(posting) => posting.points(),
        None => Set::empty(),
    }
}

/// Every posting list of the table is ascending.
pub open spec fn table_wf(postings: Seq<Option<PostingList>>) -> bool {
    forall|t: int|
        0 <= t < postings.len() && (#[trigger] postings[t]) is Some ==> postings[t].unwrap().wf()
}

/// Every word of the query is known and has a posting list.
pub open spec fn all_have_postings(
    postings: Seq<Option<PostingList>>,
    query: Seq<Option<TokenId>>,
) -> bool {
    forall|i: int|
        0 <= i < query.len() ==> (#[trigger] query[i]) is Some && slot(
            postings,
            query[i].unwrap() as int,
        ) is Some
}

/// The points that a query finds: those that hold every word of it. A query
/// without words, with an unknown word or with a word that has no posting
/// list finds nothing.
pub open spec fn matching_points(
    postings: Seq<Option<PostingList>>,
    query: Seq<Option<TokenId>>,
) -> Set<u32> {
    if query.len() > 0 && all_have_postings(postings, query) {
        Set::new(
            |p: u32|
                forall|i: int|
                    0 <= i < query.len() ==> slot_points(
                        postings,
                        (#[trigger] query[i]).unwrap() as int,
                    ).contains(p),
        )
    } else {
        Set::empty()
    }
}

/// The posting lists of the words of a query, in the order of the words;
/// `None` where a word is unknown or has no posting list.
pub fn gather_postings<'a>(
    postings: &'a Vec<Option<PostingList>>,
    query: &ParsedQuery,
) -> (lists: Option<Vec<&'a PostingList>>)
    ensures
        lists is Some <==> all_have_postings(postings@, query.tokens@),
        lists matches Some(found) ==> found@.len() == query.tokens@.len() && forall|i: int|
            0 <= i < found@.len() ==> Some(*#[trigger] found@[i]) == slot(
                postings@,
                query.tokens@[i].unwrap() as int,
            ),
{
    let mut found: Vec<&PostingList> = Vec::new();
    let mut i: usize = 0;
    while i < query.tokens.len()
        invariant
            i <= query.tokens@.len(),
            found@.len() == i,
            forall|k: int|
                0 <= k < i ==> (#[trigger] query.tokens@[k]) is Some && slot(
                    postings@,
                    query.tokens@[k].unwrap() as int,
                ) is Some,
            forall|k: int|
                0 <= k < i ==> Some(*#[trigger] found@[k]) == slot(
                    postings@,
                    query.tokens@[k].unwrap() as int,
                ),
        decreases query.tokens@.len() - i,
    {
        match query.tokens[i] {
            None => {
                return None;
            },
            Some(token) => {
                let at: usize = token as usize;
                if at >= postings.len() {
                    return None;
                }
                match &postings[at] {
                    None => {
                        return None;
                    },
                    Some(posting) => {
                        found.push(posting);
                    },
                }
            },
        }
        i += 1;
    }
    Some(found)
}

/// Puts point `idx` into the posting list of `token`, growing the table up
/// to the token and making the list where the slot was empty.
pub fn add_point(postings: &mut Vec<Option<PostingList>>, token: TokenId, idx: u32)
    requires
        table_wf(old(postings)@),
        token < usize::MAX,
    ensures
        table_wf(final(postings)@),
        final(postings)@.len() == if old(postings)@.len() > token {
            old(postings)@.len() as int
        } else {
            token + 1
        },
        slot(final(postings)@, token as int) is Some,
        slot_points(final(postings)@, token as int) == slot_points(
            old(postings)@,
            token as int,
        ).insert(idx),
        forall|t: int| t != token ==> slot(final(postings)@, t) == slot(old(postings)@, t),
{
    let token_idx_usize: usize = token as usize;
    while postings.len() <= token_idx_usize
        invariant
            table_wf(postings@),
            token_idx_usize == token,
            token < usize::MAX,
            postings@.len() >= old(postings)@.len(),
            postings@.len() <= old(postings)@.len() || postings@.len() <= token + 1,
            forall|t: int| slot(postings@, t) == slot(old(postings)@, t),
        decreases token + 1 - postings@.len(),
    {
        postings.push(None);
    }
    let ghost grown = postings@;
    match &mut postings[token_idx_usize] {
        None => {
            postings[token_idx_usize] = Some(PostingList::new(idx));
            proof {
                assert(seq![idx].to_set() =~= Set::<u32>::empty().insert(idx)) by {
                    assert forall|x: u32| seq![idx].contains(x) <==> x == idx by {
                        if x == idx {
                            assert(seq![idx][0] == x);
                        }
                    }
                }
            }
        },
        Some(posting) => {
            posting.insert(idx);
        },
    }
    proof {
        assert forall|t: int| t != token implies slot(postings@, t) == slot(
            old(postings)@,
            t,
        ) by {
            assert(slot(grown, t) == slot(old(postings)@, t));
        }
    }
}

/// Takes point `idx` out of the posting list of `token`, if there is one.
pub fn remove_point(postings: &mut Vec<Option<PostingList>>, token: TokenId, idx: u32)
    requires
        table_wf(old(postings)@),
        token < old(postings)@.len(),
    ensures
        table_wf(final(postings)@),
        final(postings)@.len() == old(postings)@.len(),
        slot(final(postings)@, token as int) is Some <==> slot(old(postings)@, token as int) is Some,
        slot_points(final(postings)@, token as int) == slot_points(
            old(postings)@,
            token as int,
        ).remove(idx),
        forall|t: int| t != token ==> slot(final(postings)@, t) == slot(old(postings)@, t),
{
    match &mut postings[token as usize] {
        None => {
            assert(Set::<u32>::empty().remove(idx) =~= Set::<u32>::empty());
        },
        Some(posting) => {
            posting.remove(idx);
        },
    }
}

} // verus!

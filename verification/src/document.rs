//! Documents and parsed queries: what a point holds and what a search asks
//! for, both as token ids.

use vstd::prelude::*;
use crate::sorted::{binary_search, lemma_search_result_decides, non_decreasing};

verus! {

/// A token of the vocabulary: ids are handed out densely from 0 in the order
/// in which the words are first seen.
pub type TokenId = u32;

/// `<[u32]>::sort_unstable`: sorts in ascending order; what comes out is a
/// rearrangement of what went in.
#[verifier::external_body]
fn sort_unstable(tokens: &mut Vec<TokenId>)
    ensures
        non_decreasing(final(tokens)@),
        final(tokens)@.to_multiset() == old(tokens)@.to_multiset(),
{
    tokens.sort_unstable()
}

/// The tokens of one point, in ascending order. A token may occur more than
/// once.
#[derive(Debug, Clone)]
pub struct Document {
    tokens: Vec<TokenId>,
}

impl View for Document {
    type V = Seq<TokenId>;

    closed spec fn view(&self) -> Seq<TokenId> {
        self.tokens@
    }
}

impl Default for Document {
    /// The document without tokens.
    fn default() -> (r: Self)
        ensures
            r.wf(),
            r@ == Seq::<TokenId>::empty(),
    {
        Self { tokens: Vec::new() }
    }
}

impl Document {
    /// The tokens are in ascending order.
    pub open spec fn wf(&self) -> bool {
        non_decreasing(self@)
    }

    /// The document of the given tokens: the same tokens, each as often as it
    /// was given, in ascending order.
    pub fn new(tokens: Vec<TokenId>) -> (r: Self)
        ensures
            r.wf(),
            r@.to_multiset() == tokens@.to_multiset(),
            r@.len() == tokens@.len(),
            forall|t: TokenId| r@.contains(t) <==> tokens@.contains(t),
    {
        let mut tokens = tokens;
        let ghost given = tokens@;
        sort_unstable(&mut tokens);
        proof {
            given.to_multiset_ensures();
            tokens@.to_multiset_ensures();
            assert forall|t: TokenId| tokens@.contains(t) <==> given.contains(t) by {
                assert(tokens@.to_multiset().count(t) == given.to_multiset().count(t));
            }
        }
        Self { tokens }
    }

    /// The number of tokens, counting repeats.
    pub fn len(&self) -> (n: usize)
        ensures
            n == self@.len(),
    {
        self.tokens.len()
    }

    /// Whether the document has no token.
    pub fn is_empty(&self) -> (b: bool)
        ensures
            b == (self@.len() == 0),
    {
        self.tokens.len() == 0
    }

    /// The tokens in ascending order.
    pub fn tokens(&self) -> (tokens: &[TokenId])
        ensures
            tokens@ == self@,
    {
        self.tokens.as_slice()
    }

    /// Whether the document holds `token`.
    pub fn check(&self, token: TokenId) -> (b: bool)
        requires
            self.wf(),
        ensures
            b == self@.contains(token),
    {
        let found = binary_search(&self.tokens, token);
        proof {
            lemma_search_result_decides(self@, token, found);
        }
        found.is_ok()
    }
}

/// A query as token ids. A word that the vocabulary does not know stands as
/// `None`, and such a query matches nothing.
#[derive(Debug)]
pub struct ParsedQuery {
    pub tokens: Vec<Option<TokenId>>,
}

/// No word of the query is unknown.
pub open spec fn all_resolved(query: Seq<Option<TokenId>>) -> bool {
    forall|i: int| 0 <= i < query.len() ==> query[i] is Some
}

/// Every word of the query is known and occurs among `tokens`.
pub open spec fn query_matches(query: Seq<Option<TokenId>>, tokens: Seq<TokenId>) -> bool {
    forall|i: int|
        0 <= i < query.len() ==> (#[trigger] query[i]) is Some && tokens.contains(query[i].unwrap())
}

impl ParsedQuery {
    /// Whether every word of the query is known.
    pub fn is_resolved(&self) -> (b: bool)
        ensures
            b == all_resolved(self.tokens@),
    {
        let mut i: usize = 0;
        while i < self.tokens.len()
            invariant
                i <= self.tokens@.len(),
                forall|k: int| 0 <= k < i ==> self.tokens@[k] is Some,
            decreases self.tokens@.len() - i,
        {
            if self.tokens[i].is_none() {
                return false;
            }
            i += 1;
        }
        true
    }

    /// Whether the document holds every word of the query.
    pub fn check_match(&self, document: &Document) -> (b: bool)
        requires
            document.wf(),
        ensures
            b == query_matches(self.tokens@, document@),
    {
        if !self.is_resolved() {
            return false;
        }
        let mut i: usize = 0;
        while i < self.tokens.len()
            invariant
                i <= self.tokens@.len(),
                document.wf(),
                all_resolved(self.tokens@),
                forall|k: int|
                    0 <= k < i ==> document@.contains((#[trigger] self.tokens@[k]).unwrap()),
            decreases self.tokens@.len() - i,
        {
            let query_token: TokenId = self.tokens[i].unwrap();
            if !document.check(query_token) {
                return false;
            }
            i += 1;
        }
        true
    }
}

} // verus!

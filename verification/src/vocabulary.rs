//! The vocabulary: the words of the index, each with the token id it was
//! given when it was first seen.

use vstd::prelude::*;
use vstd::hash_map::StringHashMap;
use crate::document::TokenId;

verus! {

/// Words and their token ids. The id of a word is the number of words that
/// were known before it, so the ids of `n` words are `0..n`.
pub struct Vocabulary {
    ids: StringHashMap<TokenId>,
    words: Vec<String>,
}

/// The words after `word` was looked up or added: unchanged where it is
/// known, else with `word` at the end.
pub open spec fn interned(words: Seq<Seq<char>>, word: Seq<char>) -> Seq<Seq<char>> {
    if words.contains(word) {
        words
    } else {
        words.push(word)
    }
}

/// The words after each of `given` was looked up or added, in order.
pub open spec fn interned_all(words: Seq<Seq<char>>, given: Seq<Seq<char>>) -> Seq<Seq<char>>
    decreases given.len(),
{
    if given.len() == 0 {
        words
    } else {
        interned(interned_all(words, given.drop_last()), given.last())
    }
}

/// The token id of `word`: its position among the words.
pub open spec fn token_of(words: Seq<Seq<char>>, word: Seq<char>) -> Option<TokenId> {
    if words.contains(word) {
        Some(words.index_of(word) as TokenId)
    } else {
        None
    }
}

/// The texts of the given strings.
pub open spec fn texts(words: Seq<String>) -> Seq<Seq<char>> {
    Seq::new(words.len(), |i: int| words[i]@)
}

/// The token ids of the given words, each by its position among `words`.
pub open spec fn token_ids(words: Seq<Seq<char>>, given: Seq<Seq<char>>) -> Seq<TokenId> {
    Seq::new(given.len(), |i: int| words.index_of(given[i]) as TokenId)
}

/// Looking a word up or adding it leaves the words before it in place and
/// adds at most one.
pub proof fn lemma_interned_extends(words: Seq<Seq<char>>, word: Seq<char>)
    ensures
        words.len() <= interned(words, word).len() <= words.len() + 1,
        interned(words, word).contains(word),
        forall|i: int| 0 <= i < words.len() ==> interned(words, word)[i] == words[i],
{
    if !words.contains(word) {
        assert(words.push(word)[words.len() as int] == word);
    }
}

/// Looking words up or adding them leaves the words before them in place,
/// adds at most one for each, and leaves every one of them known.
pub proof fn lemma_interned_all_extends(words: Seq<Seq<char>>, given: Seq<Seq<char>>)
    ensures
        words.len() <= interned_all(words, given).len() <= words.len() + given.len(),
        forall|i: int| 0 <= i < words.len() ==> interned_all(words, given)[i] == words[i],
        forall|k: int| 0 <= k < given.len() ==> interned_all(words, given).contains(given[k]),
    decreases given.len(),
{
    if given.len() > 0 {
        let before = interned_all(words, given.drop_last());
        lemma_interned_all_extends(words, given.drop_last());
        lemma_interned_extends(before, given.last());
        let after = interned_all(words, given);
        assert forall|k: int| 0 <= k < given.len() implies after.contains(given[k]) by {
            if k < given.len() - 1 {
                assert(before.contains(given.drop_last()[k]));
                let at = choose|at: int| 0 <= at < before.len() && before[at] == given[k];
                assert(after[at] == given[k]);
            }
        }
    }
}

impl View for Vocabulary {
    type V = Seq<Seq<char>>;

    /// The words, each at the position that is its token id.
    closed spec fn view(&self) -> Seq<Seq<char>> {
        Seq::new(self.words@.len(), |i: int| self.words@[i]@)
    }
}

impl Vocabulary {
    /// No word occurs twice, the ids fit a `TokenId`, and the lookup table
    /// agrees with the positions.
    pub closed spec fn wf(&self) -> bool {
        &&& self@.no_duplicates()
        &&& self@.len() <= u32::MAX + 1
        &&& forall|i: int|
            0 <= i < self@.len() ==> self.ids@.contains_key(#[trigger] self@[i])
                && self.ids@[self@[i]] == i
        &&& forall|w: Seq<char>| #[trigger]
            self.ids@.contains_key(w) ==> self.ids@[w] < self@.len() && self@[self.ids@[w] as int]
                == w
    }

    /// What `wf` gives to callers: no word occurs twice and every position
    /// fits a token id.
    pub proof fn lemma_wf(&self)
        requires
            self.wf(),
        ensures
            self@.no_duplicates(),
            self@.len() <= u32::MAX + 1,
    {
    }

    /// The empty vocabulary.
    pub fn new() -> (r: Self)
        ensures
            r.wf(),
            r@ == Seq::<Seq<char>>::empty(),
    {
        let r = Self { ids: StringHashMap::new(), words: Vec::new() };
        assert(r@ =~= Seq::<Seq<char>>::empty());
        r
    }

    /// The number of words.
    pub fn len(&self) -> (n: usize)
        ensures
            n == self@.len(),
    {
        self.words.len()
    }

    /// The token id of `word`, if the vocabulary knows it.
    pub fn get(&self, word: &str) -> (id: Option<TokenId>)
        requires
            self.wf(),
        ensures
            id == token_of(self@, word@),
            id matches Some(t) ==> t < self@.len() && self@[t as int] == word@,
    {
        match self.ids.get(word) {
            Some(id) => {
                proof {
                    let at = *id as int;
                    assert(self@[at] == word@);
                    assert(self@.contains(word@));
                    let first = self@.index_of(word@);
                    assert(self@[first] == word@);
                }
                Some(*id)
            },
            None => {
                proof {
                    if self@.contains(word@) {
                        let i = choose|i: int| 0 <= i < self@.len() && self@[i] == word@;
                        assert(self.ids@.contains_key(self@[i]));
                    }
                }
                None
            },
        }
    }

    /// The word with token id `id`.
    pub fn word(&self, id: usize) -> (word: &String)
        requires
            id < self@.len(),
        ensures
            word@ == self@[id as int],
    {
        &self.words[id]
    }

    /// The token ids of `words`, each of which is added with the next free id
    /// where the vocabulary does not know it.
    pub fn intern_all(&mut self, words: &Vec<String>) -> (ids: Vec<TokenId>)
        requires
            old(self).wf(),
            old(self)@.len() + words@.len() <= u32::MAX,
        ensures
            final(self).wf(),
            final(self)@ == interned_all(old(self)@, texts(words@)),
            ids@ == token_ids(final(self)@, texts(words@)),
            forall|i: int|
                0 <= i < words@.len() ==> ids@[i] < final(self)@.len() && final(self)@[ids@[i] as int]
                    == words@[i]@,
    {
        let mut ids: Vec<TokenId> = Vec::new();
        let mut i: usize = 0;
        assert(texts(words@).take(0) =~= Seq::<Seq<char>>::empty());
        while i < words.len()
            invariant
                i <= words@.len(),
                self.wf(),
                old(self)@.len() + words@.len() <= u32::MAX,
                self@ == interned_all(old(self)@, texts(words@).take(i as int)),
                ids@.len() == i,
                forall|k: int|
                    0 <= k < i ==> ids@[k] < self@.len() && self@[ids@[k] as int] == words@[k]@,
            decreases words@.len() - i,
        {
            let ghost before = self@;
            proof {
                lemma_interned_all_extends(old(self)@, texts(words@).take(i as int));
                let upto = texts(words@).take(i + 1);
                assert(upto.drop_last() =~= texts(words@).take(i as int));
                assert(upto.last() == words@[i as int]@);
                lemma_interned_extends(before, words@[i as int]@);
            }
            let id = self.intern(words[i].as_str());
            ids.push(id);
            i += 1;
        }
        proof {
            assert(texts(words@).take(i as int) =~= texts(words@));
            self.lemma_wf();
            let want = token_ids(self@, texts(words@));
            assert forall|k: int| 0 <= k < ids@.len() implies ids@[k] == want[k] by {
                let word = words@[k]@;
                assert(self@.contains(word));
                let first = self@.index_of(word);
                assert(self@[first] == word);
            }
            assert(ids@ =~= want);
        }
        ids
    }

    /// The token id of `word`, which is added with the next free id where
    /// the vocabulary does not know it.
    pub fn intern(&mut self, word: &str) -> (id: TokenId)
        requires
            old(self).wf(),
            old(self)@.contains(word@) || old(self)@.len() <= u32::MAX,
        ensures
            final(self).wf(),
            final(self)@ == interned(old(self)@, word@),
            Some(id) == token_of(final(self)@, word@),
            id < final(self)@.len(),
            final(self)@[id as int] == word@,
    {
        match self.get(word) {
            Some(id) => id,
            None => {
                let next_token_id: TokenId = self.words.len() as TokenId;
                let owned: String = word.to_owned();
                self.words.push(owned.clone());
                self.ids.insert(owned, next_token_id);
                proof {
                    let before = old(self)@;
                    let after = self@;
                    assert(after =~= before.push(word@));
                    assert(after[next_token_id as int] == word@);
                    assert(after.contains(word@));
                    let first = after.index_of(word@);
                    assert(after[first] == word@);
                    assert forall|i: int, j: int|
                        0 <= i < after.len() && 0 <= j < after.len() && i != j implies after[i]
                        != after[j] by {
                        if i < before.len() {
                            assert(before.contains(before[i]));
                        }
                        if j < before.len() {
                            assert(before.contains(before[j]));
                        }
                    }
                    assert forall|i: int| 0 <= i < after.len() implies self.ids@.contains_key(
                        #[trigger] after[i],
                    ) && self.ids@[after[i]] == i by {
                        if i < before.len() {
                            assert(before.contains(before[i]));
                            assert(old(self).ids@.contains_key(before[i]));
                        }
                    }
                    assert forall|w: Seq<char>| #[trigger]
                        self.ids@.contains_key(w) implies self.ids@[w] < after.len() && after[self.ids@[w] as int]
                        == w by {
                        if w != word@ {
                            assert(old(self).ids@.contains_key(w));
                        }
                    }
                }
                next_token_id
            },
        }
    }
}

} // verus!

//! The mutable posting list: the ascending ids of the points that hold one
//! token.

use vstd::prelude::*;
use vstd::layout::size_of;
use crate::sorted::{binary_search, lemma_search_result_decides, strictly_increasing};

verus! {

/// Ids of the points that contain a token, ascending and without duplicates.
#[derive(Clone, Debug)]
pub struct PostingList {
    list: Vec<u32>,
}

/// `Vec::capacity`: the number of ids that the vector has room for without
/// allocating again. It is at least the number of ids that it holds; how
/// much more is up to the allocator.
#[verifier::external_body]
fn capacity(list: &Vec<u32>) -> (room: usize)
    ensures
        room >= list@.len(),
{
    list.capacity()
}

impl Default for PostingList {
    /// The list without points.
    fn default() -> (r: Self)
        ensures
            r.wf(),
            r@ == Seq::<u32>::empty(),
    {
        Self { list: Vec::new() }
    }
}

impl View for PostingList {
    type V = Seq<u32>;

    closed spec fn view(&self) -> Seq<u32> {
        self.list@
    }
}

impl PostingList {
    /// The ids are strictly increasing.
    pub open spec fn wf(&self) -> bool {
        strictly_increasing(self@)
    }

    /// The set of points in the list.
    pub open spec fn points(&self) -> Set<u32> {
        self@.to_set()
    }

    /// The length of a list fits a machine word.
    pub proof fn lemma_len_fits(&self)
        ensures
            self@.len() <= usize::MAX,
    {
        assert(self.list.len() == self.list@.len());
    }

    /// A list that holds `idx` alone.
    pub fn new(idx: u32) -> (r: Self)
        ensures
            r.wf(),
            r@ == seq![idx],
    {
        let mut list: Vec<u32> = Vec::new();
        list.push(idx);
        assert(list@ =~= seq![idx]);
        Self { list }
    }

    /// The memory that the list takes in bytes, held at `usize::MAX`: the
    /// room of its vector, which is at least what the ids take, and the
    /// vector itself.
    pub fn size(&self) -> (n: usize)
        ensures
            n >= self@.len() * size_of::<u32>() + size_of::<Vec<u32>>() || n == usize::MAX,
    {
        let room: usize = capacity(&self.list);
        let of_id: usize = core::mem::size_of::<u32>();
        let of_vec: usize = core::mem::size_of::<Vec<u32>>();
        assert(room * of_id >= self@.len() * of_id) by (nonlinear_arith)
            requires
                room >= self@.len(),
        ;
        match room.checked_mul(of_id) {
            Some(bytes) => bytes.saturating_add(of_vec),
            None => usize::MAX,
        }
    }

    /// Adds `idx` at its place in the order; a list that holds it already
    /// stays as it is.
    pub fn insert(&mut self, idx: u32)
        requires
            old(self).wf(),
        ensures
            final(self).wf(),
            final(self).points() == old(self).points().insert(idx),
            old(self)@.contains(idx) ==> final(self)@ == old(self)@,
            !old(self)@.contains(idx) ==> final(self)@.len() == old(self)@.len() + 1,
    {
        let found = binary_search(&self.list, idx);
        proof {
            lemma_search_result_decides(self@, idx, found);
        }
        if let Err(at) = found {
            self.list.insert(at, idx);
            proof {
                let before = old(self)@;
                let after = self@;
                assert(after == before.insert(at as int, idx));
                assert forall|x: u32| after.contains(x) <==> (before.contains(x) || x == idx) by {
                    if after.contains(x) {
                        let i = choose|i: int| 0 <= i < after.len() && after[i] == x;
                        if i < at {
                            assert(before[i] == x);
                        } else if i > at {
                            assert(before[i - 1] == x);
                        }
                    }
                    if before.contains(x) {
                        let i = choose|i: int| 0 <= i < before.len() && before[i] == x;
                        if i < at {
                            assert(after[i] == x);
                        } else {
                            assert(after[i + 1] == x);
                        }
                    }
                    if x == idx {
                        assert(after[at as int] == x);
                    }
                }
                assert(after.to_set() =~= before.to_set().insert(idx));
            }
        } else {
            proof {
                assert(self@.to_set() =~= self@.to_set().insert(idx));
            }
        }
    }

    /// Takes `idx` out; a list that does not hold it stays as it is.
    pub fn remove(&mut self, idx: u32)
        requires
            old(self).wf(),
        ensures
            final(self).wf(),
            final(self).points() == old(self).points().remove(idx),
            !old(self)@.contains(idx) ==> final(self)@ == old(self)@,
            old(self)@.contains(idx) ==> final(self)@.len() == old(self)@.len() - 1,
    {
        let found = binary_search(&self.list, idx);
        proof {
            lemma_search_result_decides(self@, idx, found);
        }
        if let Ok(at) = found {
            self.list.remove(at);
            proof {
                let before = old(self)@;
                let after = self@;
                assert(after == before.remove(at as int));
                assert forall|x: u32| after.contains(x) <==> (before.contains(x) && x != idx) by {
                    if after.contains(x) {
                        let i = choose|i: int| 0 <= i < after.len() && after[i] == x;
                        if i < at {
                            assert(before[i] == x);
                        } else {
                            assert(before[i + 1] == x);
                        }
                    }
                    if before.contains(x) && x != idx {
                        let i = choose|i: int| 0 <= i < before.len() && before[i] == x;
                        if i < at {
                            assert(after[i] == x);
                        } else {
                            assert(after[i - 1] == x);
                        }
                    }
                }
                assert(after.to_set() =~= before.to_set().remove(idx));
            }
        } else {
            proof {
                assert(self@.to_set() =~= self@.to_set().remove(idx));
            }
        }
    }

    /// The number of points in the list.
    pub fn len(&self) -> (n: usize)
        ensures
            n == self@.len(),
    {
        self.list.len()
    }

    /// Whether the list holds `val`.
    pub fn contains(&self, val: &u32) -> (b: bool)
        requires
            self.wf(),
        ensures
            b == self@.contains(*val),
    {
        let found = binary_search(&self.list, *val);
        proof {
            lemma_search_result_decides(self@, *val, found);
        }
        found.is_ok()
    }

    /// The point at position `i` of the ascending order.
    pub fn get(&self, i: usize) -> (p: u32)
        requires
            i < self@.len(),
        ensures
            p == self@[i as int],
    {
        self.list[i]
    }

    /// The ids as a vector, for code that walks them by index.
    pub fn as_vec(&self) -> (ids: &Vec<u32>)
        ensures
            ids@ == self@,
    {
        &self.list
    }

    /// The ids in ascending order.
    pub fn iter(&self) -> (ids: Vec<u32>)
        ensures
            ids@ == self@,
    {
        let ids = self.list.clone();
        assert(ids@ =~= self@);
        ids
    }
}

} // verus!

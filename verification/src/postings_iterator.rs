//! The intersection of posting lists: the points that every one of them
//! holds.

use vstd::prelude::*;
use crate::posting_list::PostingList;
use crate::sorted::strictly_increasing;

verus! {

/// The points that occur in every one of the lists. No list, no point.
pub open spec fn common_points(lists: Seq<&PostingList>) -> Set<u32> {
    Set::new(
        |p: u32|
            lists.len() > 0 && forall|i: int|
                0 <= i < lists.len() ==> (#[trigger] lists[i])@.contains(p),
    )
}

/// Every point of `out` sits among the first `k` ids of `first` and in all
/// the lists, and every such point is in `out`.
spec fn found_up_to(lists: Seq<&PostingList>, out: Seq<u32>, k: int) -> bool {
    forall|p: u32|
        out.contains(p) <==> (exists|m: int| 0 <= m < k && lists[0]@[m] == p) && common_points(
            lists,
        ).contains(p)
}

/// All ids of list `i` before `cursor` are below `bound`.
spec fn passed_below(lists: Seq<&PostingList>, i: int, cursor: int, bound: u32) -> bool {
    forall|j: int| 0 <= j < cursor ==> (#[trigger] lists[i]@[j]) < bound
}

/// Walks all the lists in step and keeps the points on which they agree. The
/// first list leads: for each of its ids the others are moved on to their
/// first id that is not below it, and the id is kept where all of them stand
/// on it. The walk ends with the first list that runs out.
pub fn intersect_postings_iterator(postings: Vec<&PostingList>) -> (out: Vec<u32>)
    requires
        forall|i: int| 0 <= i < postings@.len() ==> (#[trigger] postings@[i]).wf(),
    ensures
        strictly_increasing(out@),
        out@.to_set() == common_points(postings@),
{
    let mut out: Vec<u32> = Vec::new();
    let n: usize = postings.len();
    if n == 0 {
        assert(out@.to_set() =~= common_points(postings@));
        return out;
    }
    let first: &PostingList = postings[0];
    let mut cursors: Vec<usize> = vec![0usize; n];
    let mut k: usize = 0;
    while k < first.len()
        invariant
            n == postings@.len(),
            n > 0,
            first == postings@[0],
            forall|i: int| 0 <= i < postings@.len() ==> (#[trigger] postings@[i]).wf(),
            k <= first@.len(),
            cursors@.len() == n,
            forall|i: int| 0 <= i < n ==> cursors@[i] <= (#[trigger] postings@[i])@.len(),
            forall|i: int|
                1 <= i < n && k < first@.len() ==> passed_below(
                    postings@,
                    i,
                    #[trigger] cursors@[i] as int,
                    first@[k as int],
                ),
            strictly_increasing(out@),
            forall|e: int| 0 <= e < out@.len() && k < first@.len() ==> out@[e] < first@[k as int],
            found_up_to(postings@, out@, k as int),
        decreases first@.len() - k,
    {
        let candidate: u32 = first.get(k);
        let mut agree: bool = true;
        let mut i: usize = 1;
        while i < n
            invariant
                n == postings@.len(),
                1 <= i <= n,
                first == postings@[0],
                forall|l: int| 0 <= l < postings@.len() ==> (#[trigger] postings@[l]).wf(),
                k < first@.len(),
                candidate == first@[k as int],
                cursors@.len() == n,
                forall|l: int| 0 <= l < n ==> cursors@[l] <= (#[trigger] postings@[l])@.len(),
                forall|l: int|
                    1 <= l < n ==> passed_below(
                        postings@,
                        l,
                        #[trigger] cursors@[l] as int,
                        candidate,
                    ),
                forall|l: int|
                    1 <= l < i ==> cursors@[l] < (#[trigger] postings@[l])@.len()
                        && postings@[l]@[cursors@[l] as int] >= candidate,
                agree <==> forall|l: int|
                    1 <= l < i ==> (#[trigger] postings@[l])@.contains(candidate),
                strictly_increasing(out@),
                forall|e: int| 0 <= e < out@.len() ==> out@[e] < candidate,
                found_up_to(postings@, out@, k as int),
            decreases n - i,
        {
            let list: &PostingList = postings[i];
            let mut c: usize = cursors[i];
            while c < list.len() && list.get(c) < candidate
                invariant
                    list == postings@[i as int],
                    c <= list@.len(),
                    passed_below(postings@, i as int, c as int, candidate),
                decreases list@.len() - c,
            {
                c += 1;
            }
            cursors.set(i, c);
            if c == list.len() {
                proof {
                    // list `i` has run out below the candidate, so no id of
                    // the first list from here on can be in it
                    assert forall|p: u32| out@.contains(p) <==> common_points(
                        postings@,
                    ).contains(p) by {
                        if common_points(postings@).contains(p) {
                            assert(postings@[0]@.contains(p));
                            let m = choose|m: int| 0 <= m < first@.len() && first@[m] == p;
                            assert(postings@[i as int]@.contains(p));
                            let j = choose|j: int| 0 <= j < list@.len() && list@[j] == p;
                            assert(postings@[i as int]@[j] < candidate);
                            if m >= k {
                                assert(m == k || first@[k as int] < first@[m]);
                            }
                        }
                    }
                    assert(out@.to_set() =~= common_points(postings@));
                }
                return out;
            }
            if list.get(c) != candidate {
                proof {
                    if list@.contains(candidate) {
                        let j = choose|j: int| 0 <= j < list@.len() && list@[j] == candidate;
                        if j < c {
                            assert(postings@[i as int]@[j] < candidate);
                        } else if j > c {
                            assert(list@[c as int] < list@[j]);
                        }
                    }
                }
                agree = false;
            } else {
                assert(list@[c as int] == candidate);
            }
            i += 1;
        }
        let ghost before = out@;
        if agree {
            out.push(candidate);
        }
        proof {
            assert forall|p: u32| out@.contains(p) <==> (exists|m: int|
                0 <= m < k + 1 && postings@[0]@[m] == p) && common_points(postings@).contains(
                p,
            ) by {
                if out@.contains(p) {
                    let e = choose|e: int| 0 <= e < out@.len() && out@[e] == p;
                    if e < before.len() {
                        assert(before[e] == p);
                        assert(before.contains(p));
                    } else {
                        assert(p == candidate);
                        assert(postings@[0]@[k as int] == p);
                        assert forall|l: int| 0 <= l < postings@.len() implies (
                        #[trigger] postings@[l])@.contains(p) by {
                            if l == 0 {
                                assert(first@[k as int] == p);
                            }
                        }
                    }
                }
                if (exists|m: int| 0 <= m < k + 1 && postings@[0]@[m] == p) && common_points(
                    postings@,
                ).contains(p) {
                    let m = choose|m: int| 0 <= m < k + 1 && postings@[0]@[m] == p;
                    if m < k {
                        assert(before.contains(p));
                        let e = choose|e: int| 0 <= e < before.len() && before[e] == p;
                        assert(out@[e] == p);
                    } else {
                        assert(p == candidate);
                        assert(agree);
                        assert(out@[out@.len() - 1] == p);
                    }
                }
            }
            if k + 1 < first@.len() {
                assert(first@[k as int] < first@[k + 1]);
            }
        }
        k += 1;
    }
    proof {
        assert forall|p: u32| out@.contains(p) <==> common_points(postings@).contains(p) by {
            if common_points(postings@).contains(p) {
                assert(postings@[0]@.contains(p));
            }
        }
        assert(out@.to_set() =~= common_points(postings@));
    }
    out
}

} // verus!

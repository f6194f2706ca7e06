//! Ascending sequences of 32-bit ids: the predicates the index is stated over,
//! and a binary search proved against them.

use vstd::prelude::*;

verus! {

/// Every element is strictly below all later ones: ascending, no duplicates.
pub open spec fn strictly_increasing(s: Seq<u32>) -> bool {
    forall|i: int, j: int| 0 <= i < j < s.len() ==> s[i] < s[j]
}

/// No element is above a later one: ascending, duplicates allowed.
pub open spec fn non_decreasing(s: Seq<u32>) -> bool {
    forall|i: int, j: int| 0 <= i <= j < s.len() ==> s[i] <= s[j]
}

/// Two strictly increasing sequences with the same elements are the same
/// sequence: to say which points an ascending list holds is to say what the
/// list is.
pub proof fn lemma_increasing_determined_by_elements(a: Seq<u32>, b: Seq<u32>)
    requires
        strictly_increasing(a),
        strictly_increasing(b),
        a.to_set() == b.to_set(),
    ensures
        a == b,
    decreases a.len(),
{
    if a.len() == 0 {
        if b.len() > 0 {
            assert(b.contains(b[0]));
            assert(b.to_set().contains(b[0]));
            assert(a.contains(b[0]));
        }
        assert(a =~= b);
    } else {
        let top = a.last();
        assert(a.contains(top));
        assert(a.to_set().contains(top));
        assert(b.contains(top));
        let k = choose|k: int| 0 <= k < b.len() && b[k] == top;
        if k != b.len() - 1 {
            let above = b.last();
            assert(b.contains(above));
            assert(b.to_set().contains(above));
            assert(a.contains(above));
            let i = choose|i: int| 0 <= i < a.len() && a[i] == above;
            assert(a[i] <= top);
        }
        let a0 = a.drop_last();
        let b0 = b.drop_last();
        assert forall|x: u32| a0.to_set().contains(x) <==> b0.to_set().contains(x) by {
            if a0.contains(x) {
                let i = choose|i: int| 0 <= i < a0.len() && a0[i] == x;
                assert(a[i] == x);
                assert(a.contains(x));
                assert(a.to_set().contains(x));
                assert(b.contains(x));
                let j = choose|j: int| 0 <= j < b.len() && b[j] == x;
                assert(j < b.len() - 1);
                assert(b0[j] == x);
            }
            if b0.contains(x) {
                let j = choose|j: int| 0 <= j < b0.len() && b0[j] == x;
                assert(b[j] == x);
                assert(b.contains(x));
                assert(b.to_set().contains(x));
                assert(a.contains(x));
                let i = choose|i: int| 0 <= i < a.len() && a[i] == x;
                assert(i < a.len() - 1);
                assert(a0[i] == x);
            }
        }
        assert(a0.to_set() =~= b0.to_set());
        lemma_increasing_determined_by_elements(a0, b0);
        assert(a =~= a0.push(top));
        assert(b =~= b0.push(top));
    }
}

/// Where `x` stands in an ascending sequence: `Ok` with an index that holds
/// it, or `Err` with the index that splits the smaller elements from the
/// larger ones.
pub open spec fn is_search_result(s: Seq<u32>, x: u32, r: Result<usize, usize>) -> bool {
    match r {
        Ok(i) => i < s.len() && s[i as int] == x,
        Err(i) => {
            &&& i <= s.len()
            &&& forall|j: int| 0 <= j < i ==> s[j] < x
            &&& forall|j: int| i <= j < s.len() ==> s[j] > x
        },
    }
}

/// A search result says whether the sequence holds the value.
pub proof fn lemma_search_result_decides(s: Seq<u32>, x: u32, r: Result<usize, usize>)
    requires
        is_search_result(s, x, r),
    ensures
        r is Ok <==> s.contains(x),
{
    match r {
        Ok(i) => {
            assert(s[i as int] == x);
        },
        Err(i) => {
            if s.contains(x) {
                let j = choose|j: int| 0 <= j < s.len() && s[j] == x;
                assert(j < i || i <= j);
            }
        },
    }
}

/// Binary search in an ascending vector.
pub fn binary_search(list: &Vec<u32>, x: u32) -> (r: Result<usize, usize>)
    requires
        non_decreasing(list@),
    ensures
        is_search_result(list@, x, r),
{
    let mut lo: usize = 0;
    let mut hi: usize = list.len();
    while lo < hi
        invariant
            lo <= hi <= list.len(),
            non_decreasing(list@),
            forall|j: int| 0 <= j < lo ==> list@[j] < x,
            forall|j: int| hi <= j < list.len() ==> list@[j] > x,
        decreases hi - lo,
    {
        let mid: usize = lo + (hi - lo) / 2;
        let probe: u32 = list[mid];
        if probe == x {
            return Ok(mid);
        } else if probe < x {
            lo = mid + 1;
        } else {
            hi = mid;
        }
    }
    Err(lo)
}

} // verus!

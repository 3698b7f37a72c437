use vstd::prelude::*;

verus! {

/// Whether `s` is strictly increasing.
pub open spec fn increasing(s: Seq<u32>) -> bool {
    forall|i: int, j: int| 0 <= i < j < s.len() ==> s[i] < s[j]
}

/// Where `x` would be inserted in the ascending sequence `s`: the number of
/// its elements below `x`.
pub open spec fn insertion_point(s: Seq<u32>, x: int) -> int
    decreases s.len(),
{
    if s.len() == 0 {
        0
    } else if (s.last() as int) < x {
        s.len() as int
    } else {
        insertion_point(s.drop_last(), x)
    }
}

/// In an increasing sequence, the elements before the insertion point are
/// below `x` and the others are not.
pub proof fn lemma_insertion_point(s: Seq<u32>, x: int)
    requires
        increasing(s),
    ensures
        0 <= insertion_point(s, x) <= s.len(),
        forall|i: int| 0 <= i < insertion_point(s, x) ==> s[i] < x,
        forall|i: int| insertion_point(s, x) <= i < s.len() ==> s[i] >= x,
    decreases s.len(),
{
    if s.len() > 0 {
        let t = s.drop_last();
        assert(increasing(t));
        lemma_insertion_point(t, x);
        if (s.last() as int) < x {
            assert forall|i: int| 0 <= i < s.len() implies s[i] < x by {
                if i < s.len() - 1 {
                    assert(s[i] < s[s.len() - 1]);
                }
            }
        } else {
            assert forall|i: int| 0 <= i < insertion_point(s, x) implies s[i] < x by {
                assert(s[i] == t[i]);
            }
            assert forall|i: int| insertion_point(s, x) <= i < s.len() implies s[i] >= x by {
                if i < s.len() - 1 {
                    assert(s[i] == t[i]);
                }
            }
        }
    }
}

/// Binary search of `x` in the increasing sequence `s`: its position if it
/// occurs, else where it would be inserted.
pub fn find_value(s: &Vec<u32>, x: u32) -> (r: Result<usize, usize>)
    requires
        increasing(s@),
    ensures
        r matches Ok(i) ==> i < s@.len() && s@[i as int] == x,
        r is Ok <==> s@.contains(x),
        r matches Err(p) ==> p == insertion_point(s@, x as int),
{
    let mut lo: usize = 0;
    let mut hi: usize = s.len();
    while lo < hi
        invariant
            lo <= hi <= s@.len(),
            increasing(s@),
            forall|i: int| 0 <= i < lo ==> s@[i] < x,
            forall|i: int| hi <= i < s@.len() ==> s@[i] > x,
        decreases hi - lo,
    {
        let mid = lo + (hi - lo) / 2;
        if s[mid] == x {
            return Ok(mid);
        } else if s[mid] < x {
            assert forall|i: int| 0 <= i < mid + 1 implies s@[i] < x by {
                if i < mid {
                    assert(s@[i] < s@[mid as int]);
                }
            }
            lo = mid + 1;
        } else {
            assert forall|i: int| mid <= i < s@.len() implies s@[i] > x by {
                if i > mid {
                    assert(s@[mid as int] < s@[i]);
                }
            }
            hi = mid;
        }
    }
    proof {
        lemma_insertion_point(s@, x as int);
        let p = insertion_point(s@, x as int);
        if p < lo {
            assert(s@[p] >= x);
        }
        if p > lo {
            assert(s@[lo as int] < x);
        }
        assert(!s@.contains(x)) by {
            if s@.contains(x) {
                let i = choose|i: int| 0 <= i < s@.len() && s@[i] == x;
                assert(i < lo || i >= hi);
            }
        }
    }
    Err(lo)
}

} // verus!

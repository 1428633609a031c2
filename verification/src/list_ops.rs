//! Small verified utilities over integer sequences: summation,
//! order-preserving deduplication, and filtering by a predicate.

use vstd::prelude::*;

verus! {

/// The mathematical sum of a sequence of integers.
pub open spec fn sum_of(s: Seq<i32>) -> int
    decreases s.len(),
{
    if s.len() == 0 {
        0
    } else {
        sum_of(s.drop_last()) + s.last()
    }
}

/// Computes the sum of all elements in the input slice. Every partial
/// sum, taken left to right, must fit in an `i32`, or the addition
/// would overflow.
pub fn sum(slice: &[i32]) -> (r: i32)
    requires
        forall|k: int| 0 <= k <= slice@.len() ==> i32::MIN <= sum_of(#[trigger] slice@.take(k))
            <= i32::MAX,
    ensures
        r as int == sum_of(slice@),
{
    let mut result: i32 = 0;
    let mut i: usize = 0;
    proof {
        assert(slice@.take(0) =~= Seq::<i32>::empty());
    }
    while i < slice.len()
        invariant
            0 <= i <= slice@.len(),
            forall|k: int| 0 <= k <= slice@.len() ==> i32::MIN <= sum_of(#[trigger] slice@.take(k))
                <= i32::MAX,
            result as int == sum_of(slice@.take(i as int)),
        decreases slice@.len() - i,
    {
        proof {
            assert(slice@.take(i as int + 1).drop_last() =~= slice@.take(i as int));
            assert(slice@.take(i as int + 1).last() == slice@[i as int]);
        }
        result = result + slice[i];
        i += 1;
    }
    proof {
        assert(slice@.take(slice@.len() as int) =~= slice@);
    }
    result
}

/// The subsequence of first occurrences: an element is kept exactly
/// where it has not appeared before it.
pub open spec fn dedup_seq(s: Seq<i32>) -> Seq<i32>
    decreases s.len(),
{
    if s.len() == 0 {
        Seq::empty()
    } else {
        let rest = dedup_seq(s.drop_last());
        if rest.contains(s.last()) {
            rest
        } else {
            rest.push(s.last())
        }
    }
}

/// Whether `v` holds `x`.
fn vec_contains(v: &Vec<i32>, x: i32) -> (r: bool)
    ensures
        r == v@.contains(x),
{
    let mut i: usize = 0;
    while i < v.len()
        invariant
            0 <= i <= v@.len(),
            forall|j: int| 0 <= j < i ==> v@[j] != x,
        decreases v@.len() - i,
    {
        if v[i] == x {
            return true;
        }
        i += 1;
    }
    false
}

/// Deduplicates the input vector: the result holds the first instance
/// of each distinct element, in their original order.
pub fn dedup(vs: &Vec<i32>) -> (r: Vec<i32>)
    ensures
        r@ == dedup_seq(vs@),
{
    let mut result: Vec<i32> = Vec::new();
    let mut i: usize = 0;
    proof {
        assert(vs@.take(0) =~= Seq::<i32>::empty());
    }
    while i < vs.len()
        invariant
            0 <= i <= vs@.len(),
            result@ == dedup_seq(vs@.take(i as int)),
        decreases vs@.len() - i,
    {
        proof {
            assert(vs@.take(i as int + 1).drop_last() =~= vs@.take(i as int));
            assert(vs@.take(i as int + 1).last() == vs@[i as int]);
        }
        if !vec_contains(&result, vs[i]) {
            result.push(vs[i]);
        }
        i += 1;
    }
    proof {
        assert(vs@.take(vs@.len() as int) =~= vs@);
    }
    result
}

/// Filters a vector through a predicate: the result holds, in order,
/// exactly the elements the predicate approves. The predicate must be
/// callable on every integer and answer consistently.
pub fn filter<F: Fn(i32) -> bool>(vs: &Vec<i32>, pred: &F) -> (r: Vec<i32>)
    requires
        forall|x: i32| #[trigger] pred.requires((x,)),
        forall|x: i32, b1: bool, b2: bool|
            pred.ensures((x,), b1) && pred.ensures((x,), b2) ==> b1 == b2,
    ensures
        r@ == vs@.filter(|x: i32| pred.ensures((x,), true)),
{
    let ghost keep = |x: i32| pred.ensures((x,), true);
    let mut result: Vec<i32> = Vec::new();
    let mut i: usize = 0;
    proof {
        reveal(Seq::filter);
        assert(vs@.take(0) =~= Seq::<i32>::empty());
    }
    while i < vs.len()
        invariant
            0 <= i <= vs@.len(),
            forall|x: i32| #[trigger] pred.requires((x,)),
            forall|x: i32, b1: bool, b2: bool|
                pred.ensures((x,), b1) && pred.ensures((x,), b2) ==> b1 == b2,
            keep == (|x: i32| pred.ensures((x,), true)),
            result@ == vs@.take(i as int).filter(keep),
        decreases vs@.len() - i,
    {
        proof {
            reveal(Seq::filter);
            assert(vs@.take(i as int + 1).drop_last() =~= vs@.take(i as int));
            assert(vs@.take(i as int + 1).last() == vs@[i as int]);
        }
        let x = vs[i];
        if pred(x) {
            result.push(x);
            proof {
                assert(keep(x));
            }
        } else {
            proof {
                assert(!keep(x));
            }
        }
        i += 1;
    }
    proof {
        assert(vs@.take(vs@.len() as int) =~= vs@);
    }
    result
}

} // verus!

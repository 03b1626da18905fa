//! Classic sequence and string exercises: duplicate detection, the
//! anagram check, and two-sum, each with a contract that pins the
//! result for every input.

use std::collections::HashMap;
use std::collections::HashSet;
use vstd::prelude::*;

verus! {

broadcast use
    vstd::seq_lib::group_seq_properties,
    vstd::seq_lib::group_to_multiset_ensures,
    vstd::multiset::group_multiset_axioms,
    vstd::std_specs::hash::group_hash_axioms,
;

/// The closed set of sequence-exercise commands a front end can ask
/// for, each carrying the arguments of the library call it names and
/// whether raw output was requested.
pub enum Dsa {
    ContainsDuplicate { n: Vec<i32>, raw: bool },
    IsAnagram { a: String, b: String, raw: bool },
    TwoSum { nums: String, target: i32, raw: bool },
}

/// Some value occurs at two distinct positions of `s`.
pub open spec fn has_duplicate(s: Seq<i32>) -> bool {
    exists|i: int, j: int| 0 <= i < j < s.len() && s[i] == s[j]
}

/// Single pass with a set of the values seen so far; the first value
/// seen before is reported at once.
pub fn contains_duplicate(nums: Vec<i32>) -> (r: bool)
    ensures
        r == has_duplicate(nums@),
{
    let mut seen: HashSet<i32> = HashSet::new();
    let n = nums.len();
    for idx in 0..n
        invariant
            n == nums@.len(),
            forall|x: i32| #[trigger] seen@.contains(x) <==> nums@.take(idx as int).contains(x),
            !has_duplicate(nums@.take(idx as int)),
    {
        let num = nums[idx];
        if seen.contains(&num) {
            proof {
                let j = choose|j: int| 0 <= j < idx && nums@.take(idx as int)[j] == num;
                assert(nums@[j] == nums@[idx as int]);
            }
            return true;
        }
        seen.insert(num);
        proof {
            let t1 = nums@.take(idx as int + 1);
            let t0 = nums@.take(idx as int);
            assert(t1 =~= t0.push(nums@[idx as int]));
            if has_duplicate(t1) {
                let (i, j) = choose|i: int, j: int| 0 <= i < j < t1.len() && t1[i] == t1[j];
                if j == idx as int {
                    assert(t0.contains(t0[i]));
                } else {
                    assert(0 <= i < j < t0.len() && t0[i] == t0[j]);
                }
                assert(false);
            }
        }
    }
    proof {
        assert(nums@.take(n as int) =~= nums@);
    }
    false
}

/// Single pass with a map from the complement still needed to the
/// index that needs it; returns `[i, j]` with `j < i`, `i` the
/// earliest index that completes a pair and `j` the latest earlier
/// partner. The caller guarantees that some pair sums to `target`.
pub fn two_sum(nums: Vec<i32>, target: i32) -> (r: Vec<i32>)
    requires
        nums@.len() <= i32::MAX,
        exists|i: int, j: int| 0 <= j < i < nums@.len() && nums@[j] + nums@[i] == target,
    ensures
        r@.len() == 2,
        0 <= r@[1] < r@[0] < nums@.len(),
        nums@[r@[1] as int] + nums@[r@[0] as int] == target,
        forall|i: int, j: int| 0 <= j < i < r@[0] ==> nums@[j] + nums@[i] != target,
        forall|j: int| r@[1] < j < r@[0] ==> #[trigger] nums@[j] + nums@[r@[0] as int] != target,
{
    let mut seen: HashMap<i64, i32> = HashMap::new();
    let n = nums.len();
    for idx in 0..n
        invariant
            n == nums@.len() <= i32::MAX,
            exists|i: int, j: int| 0 <= j < i < nums@.len() && nums@[j] + nums@[i] == target,
            forall|i: int, j: int| 0 <= j < i < idx ==> nums@[j] + nums@[i] != target,
            forall|k: i64| #[trigger] seen@.contains_key(k) ==> {
                &&& 0 <= seen@[k] < idx
                &&& k == target - nums@[seen@[k] as int]
                &&& forall|j2: int| seen@[k] < j2 < idx ==> target - nums@[j2] != k
            },
            forall|j: int| 0 <= j < idx ==> seen@.contains_key(
                #[trigger] ((target - nums@[j]) as i64),
            ),
    {
        let num = nums[idx];
        match seen.get(&(num as i64)) {
            Some(j_ref) => {
                let j = *j_ref;
                proof {
                    assert(seen@.contains_key(num as i64));
                    assert(nums@[j as int] + nums@[idx as int] == target);
                }
                return vec![idx as i32, j];
            },
            None => {},
        }
        proof {
            assert forall|j: int| 0 <= j < idx implies nums@[j] + nums@[idx as int] != target by {
                if nums@[j] + nums@[idx as int] == target {
                    assert((target - nums@[j]) as i64 == num as i64);
                    assert(seen@.contains_key(num as i64));
                }
            }
        }
        let diff: i64 = target as i64 - num as i64;
        seen.insert(diff, idx as i32);
    }
    proof {
        let (i, j) = choose|i: int, j: int|
            0 <= j < i < nums@.len() && nums@[j] + nums@[i] == target;
        assert(nums@[j] + nums@[i] != target);
    }
    vstd::pervasive::unreached()
}

/// The contract of [`two_sum`] admits a single index pair: any two
/// results for the same input are equal, so repeated calls agree.
pub proof fn lemma_two_sum_deterministic(nums: Seq<i32>, target: i32, r1: Seq<i32>, r2: Seq<i32>)
    requires
        r1.len() == 2,
        0 <= r1[1] < r1[0] < nums.len(),
        nums[r1[1] as int] + nums[r1[0] as int] == target,
        forall|i: int, j: int| 0 <= j < i < r1[0] ==> nums[j] + nums[i] != target,
        forall|j: int| r1[1] < j < r1[0] ==> #[trigger] nums[j] + nums[r1[0] as int] != target,
        r2.len() == 2,
        0 <= r2[1] < r2[0] < nums.len(),
        nums[r2[1] as int] + nums[r2[0] as int] == target,
        forall|i: int, j: int| 0 <= j < i < r2[0] ==> nums[j] + nums[i] != target,
        forall|j: int| r2[1] < j < r2[0] ==> #[trigger] nums[j] + nums[r2[0] as int] != target,
    ensures
        r1 == r2,
{
    if r1[0] < r2[0] {
        assert(nums[r1[1] as int] + nums[r1[0] as int] != target);
    }
    if r2[0] < r1[0] {
        assert(nums[r2[1] as int] + nums[r2[0] as int] != target);
    }
    assert(r1[0] == r2[0]);
    if r1[1] < r2[1] {
        assert(nums[r2[1] as int] + nums[r1[0] as int] != target);
    }
    if r2[1] < r1[1] {
        assert(nums[r1[1] as int] + nums[r2[0] as int] != target);
    }
    assert(r1 =~= r2);
}

/// Collects the characters of `s` in order.
fn chars_of(s: &str) -> (v: Vec<char>)
    ensures
        v@ == s@,
{
    let mut v: Vec<char> = Vec::new();
    for c in it: s.chars()
        invariant
            it.seq() == s@,
            v@ == it.seq().take(it.index()),
    {
        proof {
            assert(it.seq().take(it.index() + 1) =~= it.seq().take(it.index()).push(
                it.seq()[it.index()],
            ));
        }
        v.push(c);
    }
    proof {
        assert(s@.take(s@.len() as int) =~= s@);
    }
    v
}

/// Number of positions of `v` that hold `c`.
fn count_char(v: &Vec<char>, c: char) -> (r: usize)
    ensures
        r == v@.to_multiset().count(c),
{
    let mut r: usize = 0;
    let n = v.len();
    for i in 0..n
        invariant
            n == v@.len(),
            r <= i,
            r == v@.take(i as int).to_multiset().count(c),
    {
        proof {
            assert(v@.take(i as int + 1) =~= v@.take(i as int).push(v@[i as int]));
        }
        if v[i] == c {
            r = r + 1;
        }
    }
    proof {
        assert(v@.take(n as int) =~= v@);
    }
    r
}

/// Compares the character multisets of `x` and `y` by checking, for
/// every character that occurs in either, that both hold it equally
/// often.
fn char_multisets_equal(x: &Vec<char>, y: &Vec<char>) -> (r: bool)
    ensures
        r <==> x@.to_multiset() == y@.to_multiset(),
{
    let n = x.len();
    for i in 0..n
        invariant
            n == x@.len(),
            forall|j: int| 0 <= j < i ==> x@.to_multiset().count(#[trigger] x@[j])
                == y@.to_multiset().count(x@[j]),
    {
        let cx = count_char(x, x[i]);
        let cy = count_char(y, x[i]);
        if cx != cy {
            return false;
        }
    }
    let m = y.len();
    for i in 0..m
        invariant
            n == x@.len(),
            m == y@.len(),
            forall|j: int| 0 <= j < n ==> x@.to_multiset().count(#[trigger] x@[j])
                == y@.to_multiset().count(x@[j]),
            forall|j: int| 0 <= j < i ==> x@.to_multiset().count(#[trigger] y@[j])
                == y@.to_multiset().count(y@[j]),
    {
        let cx = count_char(x, y[i]);
        let cy = count_char(y, y[i]);
        if cx != cy {
            return false;
        }
    }
    proof {
        assert forall|c: char| x@.to_multiset().count(c) == y@.to_multiset().count(c) by {
            if x@.contains(c) {
                let j = choose|j: int| 0 <= j < x@.len() && x@[j] == c;
                assert(x@.to_multiset().count(x@[j]) == y@.to_multiset().count(x@[j]));
            } else if y@.contains(c) {
                let j = choose|j: int| 0 <= j < y@.len() && y@[j] == c;
                assert(x@.to_multiset().count(y@[j]) == y@.to_multiset().count(y@[j]));
            } else {
                assert(x@.to_multiset().count(c) == 0);
                assert(y@.to_multiset().count(c) == 0);
            }
        }
        assert(x@.to_multiset() =~= y@.to_multiset());
    }
    true
}

/// `a` and `b` are anagrams exactly when their characters form the
/// same multiset. A character is a Unicode scalar value, as
/// `str::chars` yields them. Checked by comparing per-character
/// counts.
pub fn is_anagram(a: String, b: String) -> (r: bool)
    ensures
        r <==> a@.to_multiset() == b@.to_multiset(),
{
    let va = chars_of(a.as_str());
    let vb = chars_of(b.as_str());
    char_multisets_equal(&va, &vb)
}

/// Same answer as [`is_anagram`], reached the other way around: a
/// length mismatch rules the pair out before any counting is done.
pub fn is_anagram2(a: String, b: String) -> (r: bool)
    ensures
        r <==> a@.to_multiset() == b@.to_multiset(),
{
    let va = chars_of(a.as_str());
    let vb = chars_of(b.as_str());
    if va.len() != vb.len() {
        proof {
            assert(a@.to_multiset().len() == a@.len());
            assert(b@.to_multiset().len() == b@.len());
        }
        return false;
    }
    char_multisets_equal(&va, &vb)
}

} // verus!

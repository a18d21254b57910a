//! Sorting by insertion into array-backed sequences.

use std::collections::VecDeque;
use vstd::prelude::*;
use vstd::relations::{sorted_by, total_ordering};
use vstd::seq_lib::{lemma_sorted_unique, to_multiset_build, to_multiset_remove};

verus! {

/// A sequence in which no element is larger than one that follows it.
pub open spec fn sorted(s: Seq<usize>) -> bool {
    forall|i: int, j: int| 0 <= i <= j < s.len() ==> s[i] <= s[j]
}

/// The first position of `s` whose element is at least `value`, or the
/// length of `s` when there is none.
pub open spec fn first_at_least(s: Seq<usize>, value: usize) -> int
    decreases s.len(),
{
    if s.len() == 0 {
        0
    } else if s[0] >= value {
        0
    } else {
        1 + first_at_least(s.drop_first(), value)
    }
}

/// The position that a left-to-right search for the first element at least
/// `value` ends at lies within the sequence or at its end; what comes before
/// is smaller than `value`, what stands there is not.
pub proof fn lemma_first_at_least(s: Seq<usize>, value: usize)
    ensures
        0 <= first_at_least(s, value) <= s.len(),
        forall|i: int| 0 <= i < first_at_least(s, value) ==> s[i] < value,
        first_at_least(s, value) < s.len() ==> s[first_at_least(s, value)] >= value,
    decreases s.len(),
{
    if s.len() > 0 && s[0] < value {
        let rest = s.drop_first();
        lemma_first_at_least(rest, value);
        assert forall|i: int| 0 <= i < first_at_least(s, value) implies s[i] < value by {
            if i > 0 {
                assert(rest[i - 1] == s[i]);
            }
        }
    }
}

/// Putting `value` in front of the first element at least as large keeps a
/// sorted sequence sorted, and adds `value` to what it holds.
pub proof fn lemma_insert_keeps_sorted(s: Seq<usize>, value: usize)
    requires
        sorted(s),
    ensures
        sorted(s.insert(first_at_least(s, value), value)),
        s.insert(first_at_least(s, value), value).to_multiset() == s.to_multiset().insert(value),
{
    let pos = first_at_least(s, value);
    lemma_first_at_least(s, value);
    let out = s.insert(pos, value);
    assert forall|i: int, j: int| 0 <= i <= j < out.len() implies out[i] <= out[j] by {}
    assert(out.remove(pos) =~= s);
    to_multiset_remove(out, pos);
    out.to_multiset_ensures();
}

/// A sorted sequence is determined by the values it holds: two sorted
/// sequences with the same values, each as often, are the same sequence.
pub proof fn law_sorted_is_unique(a: Seq<usize>, b: Seq<usize>)
    requires
        sorted(a),
        sorted(b),
        a.to_multiset() == b.to_multiset(),
    ensures
        a == b,
{
    let leq = |x: usize, y: usize| x <= y;
    lemma_sorted_unique(a, b, leq);
}

/// Sorts by insertion into a `Vec`: each value is appended where it is not
/// smaller than the last element, and else put in front of the first element
/// that is at least as large.
pub fn vec_insertion_sort(random_values: &Vec<usize>) -> (my_vec: Vec<usize>)
    ensures
        sorted(my_vec@),
        my_vec@.to_multiset() == random_values@.to_multiset(),
{
    let mut my_vec: Vec<usize> = Vec::new();
    proof {
        assert(random_values@.take(0) =~= my_vec@);
    }
    for n in 0..random_values.len()
        invariant
            sorted(my_vec@),
            my_vec@.to_multiset() == random_values@.take(n as int).to_multiset(),
    {
        let value: usize = random_values[n];
        proof {
            assert(random_values@.take(n + 1) =~= random_values@.take(n as int).push(value));
            to_multiset_build(random_values@.take(n as int), value);
            to_multiset_build(my_vec@, value);
            lemma_first_at_least(my_vec@, value);
            lemma_insert_keeps_sorted(my_vec@, value);
        }
        if my_vec.is_empty() || value >= my_vec[my_vec.len() - 1] {
            my_vec.push(value);
        } else {
            let pos = position_at_least(&my_vec, value);
            my_vec.insert(pos, value);
        }
    }
    proof {
        assert(random_values@.take(random_values.len() as int) =~= random_values@);
    }
    my_vec
}

/// The first position of `values` whose element is at least `value`, or the
/// length of `values` when there is none.
pub fn position_at_least(values: &Vec<usize>, value: usize) -> (pos: usize)
    ensures
        pos == first_at_least(values@, value),
{
    let mut pos: usize = 0;
    proof {
        assert(values@.skip(0) =~= values@);
    }
    while pos < values.len() && values[pos] < value
        invariant
            pos <= values.len(),
            first_at_least(values@, value) == pos + first_at_least(
                values@.skip(pos as int),
                value,
            ),
        decreases values.len() - pos,
    {
        proof {
            assert(values@.skip(pos as int).drop_first() =~= values@.skip(pos + 1));
        }
        pos += 1;
    }
    pos
}

/// Sorts by insertion into a `VecDeque`: each value is appended where it is
/// not smaller than the last element, put in front where it is not larger
/// than the first, and else put in front of the first element that is at
/// least as large.
pub fn vecdeque_insertion_sort(random_values: &Vec<usize>) -> (my_vec: VecDeque<usize>)
    ensures
        sorted(my_vec@),
        my_vec@.to_multiset() == random_values@.to_multiset(),
{
    let mut my_vec: VecDeque<usize> = VecDeque::<usize>::new();
    proof {
        assert(random_values@.take(0) =~= my_vec@);
    }
    for n in 0..random_values.len()
        invariant
            sorted(my_vec@),
            my_vec@.to_multiset() == random_values@.take(n as int).to_multiset(),
    {
        let value: usize = random_values[n];
        proof {
            assert(random_values@.take(n + 1) =~= random_values@.take(n as int).push(value));
            to_multiset_build(random_values@.take(n as int), value);
            to_multiset_build(my_vec@, value);
            lemma_first_at_least(my_vec@, value);
            lemma_insert_keeps_sorted(my_vec@, value);
        }
        if my_vec.len() == 0 || value >= my_vec[my_vec.len() - 1] {
            my_vec.push_back(value);
        } else if value <= my_vec[0] {
            proof {
                assert(seq![value] + my_vec@ =~= my_vec@.insert(0, value));
            }
            my_vec.push_front(value);
        } else {
            let pos = deque_position_at_least(&my_vec, value);
            my_vec.insert(pos, value);
        }
    }
    proof {
        assert(random_values@.take(random_values.len() as int) =~= random_values@);
    }
    my_vec
}

/// The first position of `values` whose element is at least `value`, or the
/// length of `values` when there is none.
pub fn deque_position_at_least(values: &VecDeque<usize>, value: usize) -> (pos: usize)
    ensures
        pos == first_at_least(values@, value),
{
    let mut pos: usize = 0;
    proof {
        assert(values@.skip(0) =~= values@);
    }
    while pos < values.len() && values[pos] < value
        invariant
            pos <= values.len(),
            first_at_least(values@, value) == pos + first_at_least(
                values@.skip(pos as int),
                value,
            ),
        decreases values.len() - pos,
    {
        proof {
            assert(values@.skip(pos as int).drop_first() =~= values@.skip(pos + 1));
        }
        pos += 1;
    }
    pos
}

} // verus!

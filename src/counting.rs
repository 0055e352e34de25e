use vstd::prelude::*;

verus! {

/// Number of elements of `s` that satisfy `p`.
pub open spec fn count_where<T>(s: Seq<T>, p: spec_fn(T) -> bool) -> nat
    decreases s.len(),
{
    if s.len() == 0 {
        0
    } else {
        count_where(s.drop_last(), p) + if p(s.last()) {
            1nat
        } else {
            0nat
        }
    }
}

pub proof fn lemma_count_push<T>(s: Seq<T>, x: T, p: spec_fn(T) -> bool)
    ensures
        count_where(s.push(x), p) == count_where(s, p) + if p(x) {
            1nat
        } else {
            0nat
        },
{
    assert(s.push(x).drop_last() =~= s);
}

pub proof fn lemma_count_le_len<T>(s: Seq<T>, p: spec_fn(T) -> bool)
    ensures
        count_where(s, p) <= s.len(),
    decreases s.len(),
{
    if s.len() > 0 {
        lemma_count_le_len(s.drop_last(), p);
    }
}

/// Replacing one element changes the count by what the old and new element contribute.
pub proof fn lemma_count_update<T>(s: Seq<T>, i: int, x: T, p: spec_fn(T) -> bool)
    requires
        0 <= i < s.len(),
    ensures
        count_where(s.update(i, x), p) + (if p(s[i]) {
            1nat
        } else {
            0nat
        }) == count_where(s, p) + (if p(x) {
            1nat
        } else {
            0nat
        }),
    decreases s.len(),
{
    if i == s.len() - 1 {
        assert(s.update(i, x).drop_last() =~= s.drop_last());
    } else {
        assert(s.update(i, x).drop_last() =~= s.drop_last().update(i, x));
        lemma_count_update(s.drop_last(), i, x, p);
    }
}

/// A count below three leaves no room for three distinct positions that satisfy `p`.
pub proof fn lemma_count_three<T>(s: Seq<T>, p: spec_fn(T) -> bool, i: int, j: int, k: int)
    requires
        0 <= i < j,
        j < k < s.len(),
        p(s[i]),
        p(s[j]),
        p(s[k]),
    ensures
        count_where(s, p) >= 3,
    decreases s.len(),
{
    let d = s.drop_last();
    if k == s.len() - 1 {
        lemma_count_two(d, p, i, j);
    } else {
        lemma_count_three(d, p, i, j, k);
    }
}

proof fn lemma_count_two<T>(s: Seq<T>, p: spec_fn(T) -> bool, i: int, j: int)
    requires
        0 <= i < j < s.len(),
        p(s[i]),
        p(s[j]),
    ensures
        count_where(s, p) >= 2,
    decreases s.len(),
{
    let d = s.drop_last();
    if j == s.len() - 1 {
        lemma_count_one(d, p, i);
    } else {
        lemma_count_two(d, p, i, j);
    }
}

pub proof fn lemma_count_one<T>(s: Seq<T>, p: spec_fn(T) -> bool, i: int)
    requires
        0 <= i < s.len(),
        p(s[i]),
    ensures
        count_where(s, p) >= 1,
    decreases s.len(),
{
    if i < s.len() - 1 {
        lemma_count_one(s.drop_last(), p, i);
    }
}

} // verus!

use vstd::prelude::*;
use vstd::multiset::Multiset;

verus! {

broadcast use vstd::seq_lib::group_to_multiset_ensures;

/// `a` comes no later than `b` in lexicographic order of code points, which is the
/// order of their UTF-8 bytes.
pub open spec fn lex_le(a: Seq<char>, b: Seq<char>) -> bool
    decreases a.len(),
{
    if a.len() == 0 {
        true
    } else if b.len() == 0 {
        false
    } else if (a[0] as u32) != (b[0] as u32) {
        (a[0] as u32) < (b[0] as u32)
    } else {
        lex_le(a.drop_first(), b.drop_first())
    }
}

pub proof fn lemma_lex_total(a: Seq<char>, b: Seq<char>)
    ensures
        lex_le(a, b) || lex_le(b, a),
    decreases a.len(),
{
    if a.len() > 0 && b.len() > 0 && (a[0] as u32) == (b[0] as u32) {
        lemma_lex_total(a.drop_first(), b.drop_first());
    }
}

pub proof fn lemma_lex_trans(a: Seq<char>, b: Seq<char>, c: Seq<char>)
    requires
        lex_le(a, b),
        lex_le(b, c),
    ensures
        lex_le(a, c),
    decreases a.len(),
{
    if a.len() > 0 && b.len() > 0 && c.len() > 0 && (a[0] as u32) == (b[0] as u32) && (b[0] as u32) == (
        c[0] as u32) {
        lemma_lex_trans(a.drop_first(), b.drop_first(), c.drop_first());
    }
}

/// Relies on `<str as PartialOrd>::le`: strings compare lexicographically by their bytes.
#[verifier::external_body]
fn str_le(a: &str, b: &str) -> (r: bool)
    ensures
        r == lex_le(a@, b@),
{
    a <= b
}

pub open spec fn is_sorted(s: Seq<&str>) -> bool {
    forall|i: int, j: int| 0 <= i < j < s.len() ==> lex_le(s[i]@, s[j]@)
}

/// Removes the first entry equal to `name`; returns whether there was one.
pub fn remove_fruit(list: &mut Vec<&str>, name: &str) -> (removed: bool)
    ensures
        removed == exists|i: int| 0 <= i < old(list)@.len() && (#[trigger] old(list)@[i])@ == name@,
        removed ==> exists|i: int|
            0 <= i < old(list)@.len() && (#[trigger] old(list)@[i])@ == name@ && (forall|k: int|
                0 <= k < i ==> (#[trigger] old(list)@[k])@ != name@) && final(list)@ == old(list)@.remove(i),
        !removed ==> final(list)@ == old(list)@,
{
    let target = name.to_owned();
    let mut i: usize = 0;
    while i < list.len()
        invariant
            target@ == name@,
            list@ == old(list)@,
            i <= list@.len(),
            forall|k: int| 0 <= k < i ==> (#[trigger] list@[k])@ != name@,
        decreases list.len() - i,
    {
        let here = list[i].to_owned();
        if here == target {
            let ghost before = list@;
            list.remove(i);
            proof {
                assert(before[i as int]@ == name@);
            }
            return true;
        }
        i = i + 1;
    }
    false
}

/// Index of an entry of `s` that no other entry precedes.
fn least_index(s: &Vec<&str>) -> (m: usize)
    requires
        s@.len() > 0,
    ensures
        m < s@.len(),
        forall|k: int| 0 <= k < s@.len() ==> lex_le(s@[m as int]@, (#[trigger] s@[k])@),
{
    let mut m: usize = 0;
    let mut k: usize = 1;
    proof {
        lemma_lex_total(s@[0]@, s@[0]@);
    }
    while k < s.len()
        invariant
            1 <= k <= s@.len(),
            m < k,
            forall|j: int| 0 <= j < k ==> lex_le(s@[m as int]@, (#[trigger] s@[j])@),
        decreases s.len() - k,
    {
        if !str_le(s[m], s[k]) {
            proof {
                lemma_lex_total(s@[m as int]@, s@[k as int]@);
                assert forall|j: int| 0 <= j < k + 1 implies lex_le(s@[k as int]@, (#[trigger] s@[j])@) by {
                    if j < k {
                        lemma_lex_trans(s@[k as int]@, s@[m as int]@, s@[j]@);
                    } else {
                        lemma_lex_total(s@[k as int]@, s@[k as int]@);
                    }
                }
            }
            m = k;
        }
        k = k + 1;
    }
    m
}

/// Sorts the entries in lexicographic order, keeping duplicates.
pub fn sort_fruits(list: &mut Vec<&str>)
    ensures
        final(list)@.to_multiset() == old(list)@.to_multiset(),
        is_sorted(final(list)@),
{
    let ghost all = old(list)@.to_multiset();
    let mut rest: Vec<&str> = Vec::new();
    while list.len() > 0
        invariant
            list@.to_multiset().add(rest@.to_multiset()) == all,
        decreases list@.len(),
    {
        let ghost l0 = list@;
        let ghost r0 = rest@;
        let x = list.pop().unwrap();
        rest.push(x);
        proof {
            assert(l0 =~= list@.push(x));
            assert(list@.to_multiset().add(rest@.to_multiset()) =~= l0.to_multiset().add(r0.to_multiset()));
        }
    }
    proof {
        assert(list@.len() == 0);
        assert(list@.to_multiset() =~= Multiset::<&str>::empty());
    }
    while rest.len() > 0
        invariant
            list@.to_multiset().add(rest@.to_multiset()) == all,
            is_sorted(list@),
            forall|i: int, j: int|
                0 <= i < list@.len() && 0 <= j < rest@.len() ==> lex_le((#[trigger] list@[i])@, (#[trigger] rest@[j])@),
        decreases rest@.len(),
    {
        let m = least_index(&rest);
        let ghost l0 = list@;
        let ghost r0 = rest@;
        let x = rest.remove(m);
        list.push(x);
        proof {
            assert(list@.to_multiset().add(rest@.to_multiset()) =~= l0.to_multiset().add(r0.to_multiset()));
            assert forall|i: int, j: int| 0 <= i < j < list@.len() implies lex_le(list@[i]@, list@[j]@) by {
                if j == list@.len() - 1 {
                    assert(r0[m as int] == x);
                    assert(lex_le(l0[i]@, r0[m as int]@));
                }
            }
            assert forall|i: int, j: int|
                0 <= i < list@.len() && 0 <= j < rest@.len() implies lex_le((#[trigger] list@[i])@, (#[trigger] rest@[j])@) by {
                let jj = if j < m { j } else { j + 1 };
                assert(rest@[j] == r0[jj]);
                if i == list@.len() - 1 {
                    assert(lex_le(r0[m as int]@, r0[jj]@));
                } else {
                    assert(lex_le(l0[i]@, r0[jj]@));
                }
            }
        }
    }
    proof {
        assert(rest@.to_multiset() =~= Multiset::<&str>::empty());
        assert(list@.to_multiset().add(Multiset::<&str>::empty()) =~= list@.to_multiset());
    }
}

} // verus!

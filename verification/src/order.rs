//! Sorting integers, stated as a function on sequences.

use vstd::prelude::*;

verus! {

/// `x` put into an ascending sequence behind everything that is not greater.
pub open spec fn inserted(s: Seq<i64>, x: i64) -> Seq<i64>
    decreases s.len(),
{
    if s.len() == 0 || s.last() <= x {
        s.push(x)
    } else {
        inserted(s.drop_last(), x).push(s.last())
    }
}

/// The elements in ascending order.
pub open spec fn sorted(s: Seq<i64>) -> Seq<i64>
    decreases s.len(),
{
    if s.len() == 0 {
        s
    } else {
        inserted(sorted(s.drop_last()), s.last())
    }
}

/// Ascending.
pub open spec fn is_sorted(s: Seq<i64>) -> bool {
    forall|i: int, j: int| 0 <= i <= j < s.len() ==> s[i] <= s[j]
}

proof fn lemma_inserted(s: Seq<i64>, x: i64)
    requires
        is_sorted(s),
    ensures
        is_sorted(inserted(s, x)),
        inserted(s, x).len() == s.len() + 1,
        inserted(s, x).to_multiset() =~= s.to_multiset().insert(x),
        s.len() > 0 && s.last() > x ==> inserted(s, x).last() == s.last(),
    decreases s.len(),
{
    broadcast use vstd::seq_lib::group_to_multiset_ensures;

    if s.len() == 0 || s.last() <= x {
        assert forall|i: int, j: int| 0 <= i <= j < s.push(x).len() implies s.push(x)[i]
            <= s.push(x)[j] by {
            if j == s.len() && i < j {
                assert(s[i] <= s[s.len() - 1]);
            }
        }
    } else {
        let cut = s.drop_last();
        let last = s.last();
        assert(is_sorted(cut));
        lemma_inserted(cut, x);
        let t = inserted(cut, x);
        assert(t.last() <= last) by {
            if cut.len() == 0 || cut.last() <= x {
            } else {
                assert(s[s.len() - 2] <= s[s.len() - 1]);
            }
        }
        assert forall|i: int, j: int| 0 <= i <= j < t.push(last).len() implies t.push(last)[i]
            <= t.push(last)[j] by {
            if j == t.len() && i < j {
                assert(t[i] <= t[t.len() - 1]);
            }
        }
        assert(cut.push(last) =~= s);
    }
}

/// Sorting puts the same elements in ascending order.
pub proof fn law_sorted(s: Seq<i64>)
    ensures
        is_sorted(sorted(s)),
        sorted(s).len() == s.len(),
        sorted(s).to_multiset() =~= s.to_multiset(),
    decreases s.len(),
{
    broadcast use vstd::seq_lib::group_to_multiset_ensures;

    if s.len() > 0 {
        law_sorted(s.drop_last());
        lemma_inserted(sorted(s.drop_last()), s.last());
        assert(s.drop_last().push(s.last()) =~= s);
    }
}

proof fn lemma_inserted_at(s: Seq<i64>, x: i64, k: int)
    requires
        0 <= k <= s.len(),
        is_sorted(s),
        forall|i: int| 0 <= i < k ==> s[i] <= x,
        forall|i: int| k <= i < s.len() ==> x < s[i],
    ensures
        inserted(s, x) == s.insert(k, x),
    decreases s.len(),
{
    if k == s.len() {
        if s.len() > 0 {
            assert(s[s.len() - 1] <= x);
        }
        assert(s.insert(k, x) =~= s.push(x));
    } else {
        assert(x < s[s.len() - 1]);
        lemma_inserted_at(s.drop_last(), x, k);
        assert(s.insert(k, x) =~= s.drop_last().insert(k, x).push(s.last()));
    }
}

/// Sorts integers.
pub fn sort(v: &Vec<i64>) -> (r: Vec<i64>)
    ensures
        r@ == sorted(v@),
{
    let mut r: Vec<i64> = Vec::new();
    let mut i: usize = 0;
    while i < v.len()
        invariant
            i <= v@.len(),
            r@ == sorted(v@.take(i as int)),
        decreases v@.len() - i,
    {
        let x: i64 = v[i];
        let ghost before = r@;
        proof {
            law_sorted(v@.take(i as int));
            assert(v@.take(i + 1).drop_last() =~= v@.take(i as int));
        }
        let mut k: usize = r.len();
        while k > 0 && r[k - 1] > x
            invariant
                k <= r@.len(),
                r@ == before,
                forall|j: int| k <= j < r@.len() ==> x < r@[j],
            decreases k,
        {
            k = k - 1;
        }
        proof {
            assert forall|j: int| 0 <= j < k implies before[j] <= x by {
                assert(before[j] <= before[k - 1]);
            }
            lemma_inserted_at(before, x, k as int);
        }
        r.insert(k, x);
        i = i + 1;
    }
    proof {
        assert(v@.take(i as int) =~= v@);
    }
    r
}

/// What is in ascending order stays as it is.
pub proof fn law_ascending_sequences_stay(s: Seq<i64>)
    requires
        is_sorted(s),
    ensures
        sorted(s) == s,
    decreases s.len(),
{
    if s.len() > 0 {
        let r = s.drop_last();
        assert forall|i: int, j: int| 0 <= i <= j < r.len() implies r[i] <= r[j] by {
            assert(r[i] == s[i] && r[j] == s[j]);
        }
        law_ascending_sequences_stay(r);
        if r.len() > 0 {
            assert(s[s.len() - 2] <= s[s.len() - 1]);
        }
        assert(r.push(s.last()) =~= s);
    }
}

} // verus!

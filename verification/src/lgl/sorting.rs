use vstd::multiset::Multiset;
use vstd::prelude::*;
use vstd::relations::{sorted_by, total_ordering};

verus! {

/// Ascending order on `i64`.
pub open spec fn le_i64() -> spec_fn(i64, i64) -> bool {
    |a: i64, b: i64| a <= b
}

/// The ascending rearrangement of `s`.
pub open spec fn sorted_i64(s: Seq<i64>) -> Seq<i64> {
    s.sort_by(le_i64())
}

proof fn lemma_last_is_max(a: Seq<i64>, x: i64)
    requires
        sorted_by(a, le_i64()),
        a.contains(x),
    ensures
        x <= a.last(),
{
    let i = choose|i: int| 0 <= i < a.len() && a[i] == x;
    if i < a.len() - 1 {
        assert(le_i64()(a[i], a[a.len() - 1]));
    }
}

/// Two ascending sequences with the same elements are equal.
pub proof fn lemma_sorted_unique(a: Seq<i64>, b: Seq<i64>)
    requires
        sorted_by(a, le_i64()),
        sorted_by(b, le_i64()),
        a.to_multiset() == b.to_multiset(),
    ensures
        a == b,
    decreases a.len(),
{
    broadcast use vstd::seq_lib::group_to_multiset_ensures;

    assert(a.len() == a.to_multiset().len());
    assert(b.len() == b.to_multiset().len());
    if a.len() > 0 {
        let x = a.last();
        let y = b.last();
        assert(a.to_multiset().count(x) > 0);
        assert(b.contains(x));
        assert(b.to_multiset().count(y) > 0);
        assert(a.contains(y));
        lemma_last_is_max(b, x);
        lemma_last_is_max(a, y);
        let a0 = a.drop_last();
        let b0 = b.drop_last();
        assert(a0.push(x) =~= a);
        assert(b0.push(x) =~= b);
        assert(a0.to_multiset() =~= b0.to_multiset()) by {
            assert(a0.push(x).to_multiset() =~= a0.to_multiset().insert(x));
            assert(b0.push(x).to_multiset() =~= b0.to_multiset().insert(x));
            assert forall|z: i64| a0.to_multiset().count(z) == b0.to_multiset().count(z) by {
                assert(a0.to_multiset().insert(x).count(z) == b0.to_multiset().insert(x).count(z));
            }
        }
        assert(sorted_by(a0, le_i64()));
        assert(sorted_by(b0, le_i64()));
        lemma_sorted_unique(a0, b0);
    } else {
        assert(a =~= b);
    }
}

/// Sequences with the same elements, as many times each, sort to the same sequence.
pub proof fn lemma_sorted_same(a: Seq<i64>, b: Seq<i64>)
    requires
        a.to_multiset() == b.to_multiset(),
    ensures
        sorted_i64(a) == sorted_i64(b),
{
    assert(total_ordering(le_i64()));
    a.lemma_sort_by_ensures(le_i64());
    b.lemma_sort_by_ensures(le_i64());
    lemma_sorted_unique(sorted_i64(a), sorted_i64(b));
}

/// `slice::sort` on a vector of `i64`: afterwards it is in ascending order and holds the
/// same elements as before.
#[verifier::external_body]
fn sort_in_place(v: &mut Vec<i64>)
    ensures
        sorted_by(final(v)@, le_i64()),
        final(v)@.to_multiset() == old(v)@.to_multiset(),
{
    v.sort();
}

/// Sort ascending.
pub fn sorted(v: Vec<i64>) -> (s: Vec<i64>)
    ensures
        s@ == sorted_i64(v@),
{
    let mut s = v;
    sort_in_place(&mut s);
    proof {
        assert(total_ordering(le_i64()));
        v@.lemma_sort_by_ensures(le_i64());
        lemma_sorted_unique(s@, sorted_i64(v@));
    }
    s
}

} // verus!

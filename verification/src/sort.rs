//! Ordering of listed rows by a key, as an `ORDER BY` gives them.

use vstd::prelude::*;
use vstd::multiset::Multiset;

verus! {

broadcast use vstd::seq_lib::group_to_multiset_ensures;

/// Rows ordered by a key: `key_le` is a total preorder that `le` computes.
pub trait SortKey: Sized {
    spec fn key_le(a: Self, b: Self) -> bool;

    proof fn le_total(a: Self, b: Self)
        ensures
            Self::key_le(a, b) || Self::key_le(b, a),
    ;

    proof fn le_trans(a: Self, b: Self, c: Self)
        requires
            Self::key_le(a, b),
            Self::key_le(b, c),
        ensures
            Self::key_le(a, c),
    ;

    fn le(&self, other: &Self) -> (r: bool)
        ensures
            r == Self::key_le(*self, *other),
    ;
}

pub open spec fn sorted_by_key<T: SortKey>(s: Seq<T>) -> bool {
    forall|i: int, j: int| 0 <= i < j < s.len() ==> T::key_le(s[i], s[j])
}

proof fn lemma_insert_multiset<T>(s: Seq<T>, p: int, x: T)
    requires
        0 <= p <= s.len(),
    ensures
        s.insert(p, x).to_multiset() =~= s.to_multiset().insert(x),
{
    let t = s.insert(p, x);
    s.insert_ensures(p, x);
    assert(t.remove(p) =~= s);
    assert(t[p] == x);
    assert(t.remove(p).to_multiset() =~= t.to_multiset().remove(x));
    assert(t.contains(x));
    assert(t.to_multiset().count(x) > 0);
}

/// Mapping two sequences with the same elements gives two sequences with the
/// same elements.
pub proof fn lemma_map_multiset<A, B>(a: Seq<A>, b: Seq<A>, f: spec_fn(A) -> B)
    requires
        a.to_multiset() == b.to_multiset(),
    ensures
        a.map_values(f).to_multiset() == b.map_values(f).to_multiset(),
    decreases a.len(),
{
    assert(a.len() == a.to_multiset().len());
    assert(b.len() == b.to_multiset().len());
    if a.len() == 0 {
        assert(a.map_values(f) =~= b.map_values(f));
    } else {
        let x = a.last();
        assert(a =~= a.drop_last().push(x));
        assert(a.to_multiset().count(x) > 0);
        assert(b.contains(x));
        let j = choose|j: int| 0 <= j < b.len() && b[j] == x;
        let b2 = b.remove(j);
        assert(b2.to_multiset() =~= b.to_multiset().remove(x));
        assert(a.drop_last().to_multiset() =~= a.to_multiset().remove(x));
        lemma_map_multiset(a.drop_last(), b2, f);
        assert(a.map_values(f) =~= a.drop_last().map_values(f).push(f(x)));
        let mb = b.map_values(f);
        assert(mb.remove(j) =~= b2.map_values(f));
        assert(mb[j] == f(x));
        assert(mb.remove(j).to_multiset() =~= mb.to_multiset().remove(f(x)));
        assert(mb.contains(f(x)));
        assert(mb.to_multiset().count(f(x)) > 0);
    }
}

/// The rows of `v` ordered by their key.
#[verifier::rlimit(40)]
pub fn sort_by_key<T: SortKey>(v: Vec<T>) -> (r: Vec<T>)
    ensures
        sorted_by_key(r@),
        r@.to_multiset() == v@.to_multiset(),
        r@.len() == v@.len(),
{
    let mut rest = v;
    let mut r: Vec<T> = Vec::new();
    while rest.len() > 0
        invariant
            sorted_by_key(r@),
            r@.to_multiset().add(rest@.to_multiset()) == v@.to_multiset(),
        decreases rest@.len(),
    {
        let ghost before = rest@;
        let x = rest.pop().unwrap();
        assert(before =~= rest@.push(x));
        let mut p: usize = 0;
        while p < r.len() && r[p].le(&x)
            invariant
                p <= r@.len(),
                forall|i: int| 0 <= i < p ==> T::key_le(#[trigger] r@[i], x),
            decreases r@.len() - p,
        {
            p = p + 1;
        }
        let ghost old_r = r@;
        proof {
            lemma_insert_multiset(old_r, p as int, x);
            old_r.insert_ensures(p as int, x);
            if p < old_r.len() {
                T::le_total(old_r[p as int], x);
            }
            assert forall|i: int, j: int| 0 <= i < j < old_r.len() + 1 implies T::key_le(
                #[trigger] old_r.insert(p as int, x)[i],
                #[trigger] old_r.insert(p as int, x)[j],
            ) by {
                let t = old_r.insert(p as int, x);
                if j < p {
                } else if j == p {
                } else if i < p {
                    assert(T::key_le(old_r[i], old_r[j - 1]));
                    assert(t[j] == old_r[j - 1]);
                } else if i == p {
                    if p as int == j - 1 {
                    } else {
                        assert(T::key_le(old_r[p as int], old_r[j - 1]));
                        T::le_trans(x, old_r[p as int], old_r[j - 1]);
                    }
                } else {
                    assert(t[i] == old_r[i - 1]);
                    assert(t[j] == old_r[j - 1]);
                }
            }
        }
        r.insert(p, x);
        assert(r@.to_multiset().add(rest@.to_multiset()) =~= v@.to_multiset());
    }
    proof {
        assert(rest@.to_multiset() =~= Multiset::empty());
        assert(r@.to_multiset() =~= v@.to_multiset());
        assert(r@.len() == r@.to_multiset().len());
        assert(v@.len() == v@.to_multiset().len());
    }
    r
}

} // verus!

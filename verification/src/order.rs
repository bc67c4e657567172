//! A total order abstraction and a verified sort.
//!
//! The ranking pipeline sorts candidate lists under three different orders
//! (lexical rank, similarity, fused score). Each order implements
//! [`TotalOrd`]; [`sort_by_ord`] produces a sorted permutation under any of
//! them.

use vstd::prelude::*;
use vstd::seq_lib::{to_multiset_build, to_multiset_insert, to_multiset_contains, to_multiset_len};

verus! {

/// A total order on copyable keys. `ord_wf` guards keys whose executable
/// comparison needs bounded fields (to stay within machine arithmetic).
pub trait TotalOrd: Sized + Copy {
    /// Keys the order may compare.
    spec fn ord_wf(self) -> bool;

    /// The order relation itself.
    spec fn ord_le(self, other: Self) -> bool;

    /// The relation is total on well-formed keys.
    proof fn lemma_ord_total(a: Self, b: Self)
        requires
            a.ord_wf(),
            b.ord_wf(),
        ensures
            a.ord_le(b) || b.ord_le(a),
    ;

    /// The relation is transitive on well-formed keys.
    proof fn lemma_ord_trans(a: Self, b: Self, c: Self)
        requires
            a.ord_wf(),
            b.ord_wf(),
            c.ord_wf(),
            a.ord_le(b),
            b.ord_le(c),
        ensures
            a.ord_le(c),
    ;

    /// Executable comparison, equal to the specification order.
    fn le(&self, other: &Self) -> (r: bool)
        requires
            self.ord_wf(),
            other.ord_wf(),
        ensures
            r == self.ord_le(*other),
    ;
}

/// Every key of the sequence is well formed.
pub open spec fn all_ord_wf<T: TotalOrd>(s: Seq<T>) -> bool {
    forall|i: int| 0 <= i < s.len() ==> (#[trigger] s[i]).ord_wf()
}

/// The sequence is ascending under the key's order.
pub open spec fn sorted_by_ord<T: TotalOrd>(s: Seq<T>) -> bool {
    forall|i: int, j: int| 0 <= i < j < s.len() ==> (#[trigger] s[i]).ord_le(#[trigger] s[j])
}

/// Sort the keys ascending: the result is a sorted permutation of the input.
pub fn sort_by_ord<T: TotalOrd>(v: &Vec<T>) -> (r: Vec<T>)
    requires
        all_ord_wf(v@),
    ensures
        r@.to_multiset() == v@.to_multiset(),
        sorted_by_ord(r@),
        r@.len() == v@.len(),
        all_ord_wf(r@),
        forall|x: T| r@.contains(x) <==> v@.contains(x),
{
    broadcast use to_multiset_build, to_multiset_insert, to_multiset_contains, to_multiset_len;

    let mut r: Vec<T> = Vec::new();
    let n = v.len();
    assert(v@.take(0int) =~= Seq::<T>::empty());
    for idx in 0..n
        invariant
            n == v@.len(),
            all_ord_wf(v@),
            r@.to_multiset() == v@.take(idx as int).to_multiset(),
            r@.len() == idx,
            sorted_by_ord(r@),
            all_ord_wf(r@),
    {
        let x = v[idx];
        let mut j: usize = 0;
        while j < r.len() && r[j].le(&x)
            invariant
                j <= r@.len(),
                all_ord_wf(r@),
                x.ord_wf(),
                sorted_by_ord(r@),
                forall|k: int| 0 <= k < j ==> (#[trigger] r@[k]).ord_le(x),
            decreases r@.len() - j,
        {
            j += 1;
        }
        proof {
            if j < r@.len() {
                T::lemma_ord_total(x, r@[j as int]);
            }
        }
        let ghost prev = r@;
        r.insert(j, x);
        proof {
            let rs = r@;
            assert(rs =~= prev.insert(j as int, x));
            to_multiset_insert(prev, j as int, x);
            to_multiset_build(v@.take(idx as int), v@[idx as int]);
            assert(v@.take(idx + 1) =~= v@.take(idx as int).push(v@[idx as int]));
            assert(rs.to_multiset() == v@.take(idx + 1).to_multiset());
            assert forall|k: int| j < k < rs.len() implies x.ord_le(#[trigger] rs[k]) by {
                assert(rs[k] == prev[k - 1]);
                if k - 1 > j {
                    T::lemma_ord_trans(x, prev[j as int], prev[k - 1]);
                }
            }
            assert forall|a: int, b: int| 0 <= a < b < rs.len() implies rs[a].ord_le(rs[b]) by {
                if b < j {
                    assert(rs[a] == prev[a] && rs[b] == prev[b]);
                } else if b == j {
                    assert(rs[a] == prev[a] && rs[b] == x);
                } else {
                    // b lands past the inserted key
                    assert(x.ord_le(rs[b]));
                    if a < j {
                        assert(rs[a] == prev[a]);
                        T::lemma_ord_trans(rs[a], x, rs[b]);
                    } else if a == j {
                        assert(rs[a] == x);
                    } else {
                        assert(rs[a] == prev[a - 1] && rs[b] == prev[b - 1]);
                    }
                }
            }
        }
    }
    proof {
        assert(v@.take(n as int) =~= v@);
        assert forall|x: T| r@.contains(x) <==> v@.contains(x) by {
            assert(r@.contains(x) <==> r@.to_multiset().count(x) > 0);
            assert(v@.contains(x) <==> v@.to_multiset().count(x) > 0);
        }
    }
    r
}

} // verus!

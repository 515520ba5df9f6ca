use vstd::prelude::*;

use crate::sequtil::lemma_insert_to_multiset;

verus! {

/// A total, transitive "comes before or ties" relation under which standings
/// lines are ordered.
pub trait RankOrd: Sized {
    /// Whether `self` may stand at or above `other` in the standings.
    spec fn leq(self, other: Self) -> bool;

    /// An exact copy of the line.
    fn dup(&self) -> (r: Self)
        ensures
            r == *self,
    ;

    /// The relation is total.
    proof fn lemma_leq_total(a: Self, b: Self)
        ensures
            a.leq(b) || b.leq(a),
    ;

    /// The relation is transitive.
    proof fn lemma_leq_trans(a: Self, b: Self, c: Self)
        ensures
            a.leq(b) && b.leq(c) ==> a.leq(c),
    ;

    /// Executable decision of the relation.
    fn le(&self, other: &Self) -> (r: bool)
        ensures
            r == self.leq(*other),
    ;
}

/// Every element is in the relation with every later one.
pub open spec fn ordered<T: RankOrd>(s: Seq<T>) -> bool {
    forall|i: int, j: int| 0 <= i < j < s.len() ==> #[trigger] s[i].leq(#[trigger] s[j])
}

/// Stable insertion sort: the result carries the same elements, ordered.
pub fn sort_ranked<T: RankOrd>(v: &Vec<T>) -> (r: Vec<T>)
    ensures
        r@.to_multiset() == v@.to_multiset(),
        ordered(r@),
        r@.len() == v@.len(),
{
    broadcast use vstd::seq_lib::group_to_multiset_ensures;

    let n = v.len();
    let mut out: Vec<T> = Vec::new();
    let mut i: usize = 0;
    while i < n
        invariant
            0 <= i <= n == v@.len(),
            out@.to_multiset() == v@.take(i as int).to_multiset(),
            out@.len() == i,
            ordered(out@),
        decreases n - i,
    {
        broadcast use vstd::seq_lib::group_to_multiset_ensures;

        let x = v[i].dup();
        let ghost before_ins = out@;
        let mut pos: usize = out.len();
        while pos > 0 && !out[pos - 1].le(&x)
            invariant
                0 <= pos <= out@.len(),
                out@ == before_ins,
                forall|k: int| pos <= k < out@.len() ==> !(#[trigger] out@[k]).leq(x),
            decreases pos,
        {
            pos -= 1;
        }
        proof {
            if pos > 0 {
                assert(out@[pos - 1].leq(x));
                assert forall|k: int| 0 <= k < pos implies (#[trigger] out@[k]).leq(x) by {
                    if k < pos - 1 {
                        T::lemma_leq_trans(out@[k], out@[pos - 1], x);
                    }
                }
            }
            assert forall|k: int| pos <= k < out@.len() implies x.leq(#[trigger] out@[k]) by {
                T::lemma_leq_total(out@[k], x);
            }
        }
        out.insert(pos, x);
        proof {
            lemma_insert_to_multiset(before_ins, pos as int, x);
            assert(v@.take(i + 1).drop_last() =~= v@.take(i as int));
            assert(v@.take(i + 1) =~= v@.take(i as int).push(v@[i as int]));
            assert(out@.to_multiset() == v@.take(i + 1).to_multiset());
            assert forall|a: int, b: int| 0 <= a < b < out@.len() implies #[trigger] out@[a].leq(
                #[trigger] out@[b],
            ) by {
                if a < pos && b == pos {
                } else if a == pos && b > pos {
                } else if a < pos && b > pos {
                    assert(before_ins[a].leq(before_ins[b - 1]));
                } else if b < pos {
                    assert(before_ins[a].leq(before_ins[b]));
                } else if a > pos {
                    assert(before_ins[a - 1].leq(before_ins[b - 1]));
                } else if a == pos && b == pos {
                }
            }
        }
        i += 1;
    }
    proof {
        assert(v@.take(n as int) =~= v@);
    }
    out
}

} // verus!

use vstd::prelude::*;

use crate::record::{
    distinct_keys, has_key, has_member, member_identity, member_index, solve_key, wf_records,
    wf_solution, Identifier, ProblemPart, Solution,
};
use crate::sequtil::{lemma_filter_all_false, lemma_filter_membership, lemma_filter_push};

verus! {

/// An immutable snapshot of solve events, in arrival order.
#[derive(Debug)]
pub struct Leaderboard {
    pub records: Vec<Solution>,
}

impl View for Leaderboard {
    type V = Seq<Solution>;

    open spec fn view(&self) -> Seq<Solution> {
        self.records@
    }
}

impl Clone for Identifier {
    fn clone(&self) -> (r: Self)
        ensures
            r == *self,
    {
        Identifier { name: self.name.clone(), numeric: self.numeric, global_score: self.global_score }
    }
}

impl Clone for Solution {
    fn clone(&self) -> (r: Self)
        ensures
            r == *self,
    {
        Solution {
            timestamp: self.timestamp,
            year: self.year,
            day: self.day,
            part: self.part,
            id: self.id.clone(),
            rank: self.rank,
        }
    }
}

/// The records of the reference snapshot whose key is absent from the
/// comparison snapshot: the solves newly observed since the comparison.
pub open spec fn spec_diff(reference: Seq<Solution>, comparison: Seq<Solution>) -> Seq<Solution> {
    reference.filter(|r: Solution| !has_key(comparison, solve_key(r)))
}

/// The set of solve keys a snapshot carries.
pub open spec fn key_set(s: Seq<Solution>) -> Set<(u64, u8, ProblemPart)> {
    Set::new(|k: (u64, u8, ProblemPart)| has_key(s, k))
}

/// The records of the broad snapshot by members of the narrow one, each
/// reported under the identity resolved from the narrow snapshot.
pub open spec fn spec_heroes(broad: Seq<Solution>, narrow: Seq<Solution>) -> Seq<
    (Identifier, ProblemPart),
> {
    broad.filter(|e: Solution| has_member(narrow, e.id.numeric)).map_values(
        |e: Solution| (member_identity(narrow, e.id.numeric), e.part),
    )
}

impl Leaderboard {
    /// An empty snapshot.
    pub fn new() -> (r: Leaderboard)
        ensures
            r@ == Seq::<Solution>::empty(),
    {
        Leaderboard { records: Vec::new() }
    }

    pub fn len(&self) -> (r: usize)
        ensures
            r == self@.len(),
    {
        self.records.len()
    }

    /// Appends one solve event.  The caller must keep the snapshot invariant:
    /// no second record under an already present key.
    pub fn push(&mut self, s: Solution)
        requires
            wf_solution(s),
            !has_key(old(self)@, solve_key(s)),
        ensures
            final(self)@ == old(self)@.push(s),
            wf_records(old(self)@) ==> wf_records(final(self)@),
    {
        self.records.push(s);
    }

    /// Whether some record carries the given key.
    pub fn has_solve(&self, numeric: u64, day: u8, part: ProblemPart) -> (r: bool)
        ensures
            r == has_key(self@, (numeric, day, part)),
    {
        let n = self.records.len();
        let mut i: usize = 0;
        while i < n
            invariant
                0 <= i <= n == self@.len(),
                forall|j: int| 0 <= j < i ==> solve_key(self@[j]) != (numeric, day, part),
            decreases n - i,
        {
            let e = &self.records[i];
            if e.id.numeric == numeric && e.day == day && e.part == part {
                assert(solve_key(self@[i as int]) == (numeric, day, part));
                return true;
            }
            i += 1;
        }
        false
    }

    /// Whether some record belongs to the member with this numeric id.
    pub fn has_member_with_id(&self, numeric: u64) -> (r: bool)
        ensures
            r == has_member(self@, numeric),
    {
        let n = self.records.len();
        let mut i: usize = 0;
        while i < n
            invariant
                0 <= i <= n == self@.len(),
                forall|j: int| 0 <= j < i ==> self@[j].id.numeric != numeric,
            decreases n - i,
        {
            if self.records[i].id.numeric == numeric {
                return true;
            }
            i += 1;
        }
        false
    }

    /// The numeric ids of the members present, without duplicates.
    pub fn members_ids(&self) -> (r: Vec<u64>)
        ensures
            forall|u: u64| r@.contains(u) <==> has_member(self@, u),
            forall|i: int, j: int| 0 <= i < j < r@.len() ==> r@[i] != r@[j],
    {
        let n = self.records.len();
        let mut out: Vec<u64> = Vec::new();
        let mut i: usize = 0;
        while i < n
            invariant
                0 <= i <= n == self@.len(),
                forall|k: int|
                    0 <= k < out@.len() ==> exists|j: int|
                        0 <= j < i && (#[trigger] self@[j]).id.numeric == #[trigger] out@[k],
                forall|j: int| 0 <= j < i ==> out@.contains((#[trigger] self@[j]).id.numeric),
                forall|k1: int, k2: int| 0 <= k1 < k2 < out@.len() ==> out@[k1] != out@[k2],
            decreases n - i,
        {
            let u = self.records[i].id.numeric;
            let ghost prev = out@;
            let mut seen = false;
            let mut k: usize = 0;
            while k < out.len()
                invariant
                    0 <= k <= out@.len(),
                    seen == exists|j: int| 0 <= j < k && out@[j] == u,
                decreases out@.len() - k,
            {
                if out[k] == u {
                    seen = true;
                }
                k += 1;
            }
            if !seen {
                out.push(u);
            }
            proof {
                assert(out@.contains(u)) by {
                    if seen {
                        assert(out@ == prev);
                    } else {
                        assert(out@[out@.len() - 1] == u);
                    }
                }
                assert forall|j: int| 0 <= j < i + 1 implies out@.contains(
                    (#[trigger] self@[j]).id.numeric,
                ) by {
                    if j < i {
                        let k0 = choose|k0: int| 0 <= k0 < prev.len() && prev[k0] == self@[j].id.numeric;
                        assert(out@[k0] == self@[j].id.numeric);
                    }
                }
            }
            i += 1;
        }
        proof {
            assert forall|u: u64| out@.contains(u) implies has_member(self@, u) by {
                let k = choose|k: int| 0 <= k < out@.len() && out@[k] == u;
                let j = choose|j: int| 0 <= j < n && (#[trigger] self@[j]).id.numeric == out@[k];
            }
            assert forall|u: u64| has_member(self@, u) implies out@.contains(u) by {
                let j = choose|j: int| 0 <= j < self@.len() && (#[trigger] self@[j]).id.numeric == u;
            }
        }
        out
    }

    /// The identifier of the member with this numeric id, resolved from the
    /// first of their records, or `None` if the member is absent.
    pub fn get_member_by_id(&self, id: u64) -> (r: Option<Identifier>)
        ensures
            has_member(self@, id) ==> r == Option::Some(member_identity(self@, id)),
            !has_member(self@, id) ==> r is None,
    {
        let n = self.records.len();
        let mut i: usize = 0;
        while i < n
            invariant
                0 <= i <= n == self@.len(),
                forall|j: int| 0 <= j < i ==> self@[j].id.numeric != id,
            decreases n - i,
        {
            if self.records[i].id.numeric == id {
                proof {
                    crate::record::lemma_member_index(self@, id);
                    let mi = member_index(self@, id);
                    assert(mi >= i);
                    assert(mi <= i);
                }
                return Option::Some(self.records[i].id.clone());
            }
            i += 1;
        }
        Option::None
    }

    /// The records of this snapshot whose `(member, day, part)` key does not
    /// occur in the comparison snapshot.
    pub fn compute_diffs(&self, current_leaderboard: &Leaderboard) -> (r: Vec<Solution>)
        ensures
            r@ == spec_diff(self@, current_leaderboard@),
    {
        let pred = Ghost(|s: Solution| !has_key(current_leaderboard@, solve_key(s)));
        let n = self.records.len();
        let mut out: Vec<Solution> = Vec::new();
        let mut i: usize = 0;
        while i < n
            invariant
                0 <= i <= n == self@.len(),
                out@ == self@.take(i as int).filter(pred@),
                pred@ == (|s: Solution| !has_key(current_leaderboard@, solve_key(s))),
            decreases n - i,
        {
            let e = &self.records[i];
            let present = current_leaderboard.has_solve(e.id.numeric, e.day, e.part);
            proof {
                assert(solve_key(self@[i as int]) == (e.id.numeric, e.day, e.part));
                assert(self@.take(i + 1).drop_last() =~= self@.take(i as int));
                assert(self@.take(i + 1) =~= self@.take(i as int).push(self@[i as int]));
                lemma_filter_push(self@.take(i as int), pred@, self@[i as int]);
            }
            if !present {
                out.push(e.clone());
            }
            i += 1;
        }
        proof {
            assert(self@.take(n as int) =~= self@);
        }
        out
    }

    /// Every record of this (broad) snapshot whose member also appears in the
    /// narrow snapshot, reported under the narrow snapshot's identity.
    pub fn check_for_private_members(&self, private_leaderboard: &Leaderboard) -> (r: Vec<
        (Identifier, ProblemPart),
    >)
        ensures
            r@ == spec_heroes(self@, private_leaderboard@),
    {
        let pred = Ghost(|e: Solution| has_member(private_leaderboard@, e.id.numeric));
        let f = Ghost(
            |e: Solution| (member_identity(private_leaderboard@, e.id.numeric), e.part),
        );
        let n = self.records.len();
        let mut out: Vec<(Identifier, ProblemPart)> = Vec::new();
        let mut i: usize = 0;
        while i < n
            invariant
                0 <= i <= n == self@.len(),
                out@ == self@.take(i as int).filter(pred@).map_values(f@),
                pred@ == (|e: Solution| has_member(private_leaderboard@, e.id.numeric)),
                f@ == (|e: Solution| (member_identity(private_leaderboard@, e.id.numeric), e.part)),
            decreases n - i,
        {
            let e = &self.records[i];
            proof {
                assert(self@.take(i + 1).drop_last() =~= self@.take(i as int));
                assert(self@.take(i + 1) =~= self@.take(i as int).push(self@[i as int]));
                lemma_filter_push(self@.take(i as int), pred@, self@[i as int]);
            }
            match private_leaderboard.get_member_by_id(e.id.numeric) {
                Option::Some(m) => {
                    out.push((m, e.part));
                    proof {
                        let prev = self@.take(i as int).filter(pred@);
                        assert(prev.push(self@[i as int]).map_values(f@) =~= prev.map_values(
                            f@,
                        ).push(f@(self@[i as int])));
                    }
                },
                Option::None => {
                },
            }
            i += 1;
        }
        proof {
            assert(self@.take(n as int) =~= self@);
        }
        out
    }
}

/// Diffing a snapshot against itself reports nothing: every record's key is
/// present on both sides.
pub proof fn lemma_diff_self_empty(s: Seq<Solution>)
    ensures
        spec_diff(s, s) == Seq::<Solution>::empty(),
{
    let pred = |r: Solution| !has_key(s, solve_key(r));
    assert forall|i: int| 0 <= i < s.len() implies !pred(#[trigger] s[i]) by {
        assert(solve_key(s[i]) == solve_key(s[i]));
    }
    lemma_filter_all_false(s, pred);
}

/// The two directions of a diff partition the symmetric difference of the
/// two snapshots' key sets: each direction carries exactly the keys present
/// on its side only, the directions are disjoint, and together they cover
/// every key present in exactly one snapshot.
pub proof fn lemma_diff_partitions(a: Seq<Solution>, b: Seq<Solution>)
    ensures
        key_set(spec_diff(a, b)) == key_set(a).difference(key_set(b)),
        key_set(spec_diff(b, a)) == key_set(b).difference(key_set(a)),
        key_set(spec_diff(a, b)).disjoint(key_set(spec_diff(b, a))),
        key_set(spec_diff(a, b)).union(key_set(spec_diff(b, a))) == Set::new(
            |k: (u64, u8, ProblemPart)| has_key(a, k) != has_key(b, k),
        ),
{
    lemma_diff_direction(a, b);
    lemma_diff_direction(b, a);
    assert(key_set(spec_diff(a, b)).disjoint(key_set(spec_diff(b, a))));
    assert(key_set(spec_diff(a, b)).union(key_set(spec_diff(b, a))) =~= Set::new(
        |k: (u64, u8, ProblemPart)| has_key(a, k) != has_key(b, k),
    ));
}

/// One direction of a diff carries exactly the keys of the reference that the
/// comparison lacks.
pub proof fn lemma_diff_direction(a: Seq<Solution>, b: Seq<Solution>)
    ensures
        key_set(spec_diff(a, b)) == key_set(a).difference(key_set(b)),
{
    let pred = |r: Solution| !has_key(b, solve_key(r));
    lemma_filter_membership(a, pred);
    assert forall|k: (u64, u8, ProblemPart)| #[trigger]
        key_set(spec_diff(a, b)).contains(k) implies key_set(a).difference(key_set(b)).contains(
        k,
    ) by {
        let i = choose|i: int| 0 <= i < spec_diff(a, b).len() && solve_key(spec_diff(a, b)[i]) == k;
        let x = spec_diff(a, b)[i];
        assert(spec_diff(a, b).contains(x));
        assert(a.contains(x) && pred(x));
        let j = choose|j: int| 0 <= j < a.len() && a[j] == x;
        assert(has_key(a, k));
    }
    assert forall|k: (u64, u8, ProblemPart)|
        key_set(a).difference(key_set(b)).contains(k) implies #[trigger] key_set(
        spec_diff(a, b),
    ).contains(k) by {
        let i = choose|i: int| 0 <= i < a.len() && solve_key(a[i]) == k;
        let x = a[i];
        assert(a.contains(x) && pred(x));
        assert(spec_diff(a, b).contains(x));
        let j = choose|j: int| 0 <= j < spec_diff(a, b).len() && spec_diff(a, b)[j] == x;
        assert(solve_key(spec_diff(a, b)[j]) == k);
    }
    assert(key_set(spec_diff(a, b)) =~= key_set(a).difference(key_set(b)));
}

} // verus!

use vstd::prelude::*;

verus! {

/// Largest magnitude (in seconds since the epoch) of any instant the engine
/// handles; far above any instant a calendar library can produce, and small
/// enough that differences of two instants never overflow `i64`.
pub const TS_LIMIT: i64 = 20_000_000_000_000;

/// One of the two parts of a daily challenge.
#[derive(Debug, Clone, Copy, PartialEq, Eq, Hash, Structural)]
pub enum ProblemPart {
    FIRST,
    SECOND,
}

impl ProblemPart {
    /// The part with the given one-based number; only 1 and 2 exist.
    pub fn from(input: usize) -> (r: Self)
        requires
            input == 1 || input == 2,
        ensures
            input == 1 ==> r == ProblemPart::FIRST,
            input == 2 ==> r == ProblemPart::SECOND,
    {
        if input == 1 {
            ProblemPart::FIRST
        } else {
            ProblemPart::SECOND
        }
    }

    /// Human-readable one-character label, "1" or "2".
    pub fn label(&self) -> (r: &'static str)
        ensures
            *self == ProblemPart::FIRST ==> r@ == "1"@,
            *self == ProblemPart::SECOND ==> r@ == "2"@,
    {
        match self {
            ProblemPart::FIRST => "1",
            ProblemPart::SECOND => "2",
        }
    }
}

/// Unique identifier for a participant on a leaderboard.
///
/// Equality is defined by `numeric` alone: the display name may change
/// between snapshots and must never be used as a key.
#[derive(Debug)]
pub struct Identifier {
    pub name: String,
    pub numeric: u64,
    pub global_score: u64,
}

impl PartialEq for Identifier {
    fn eq(&self, other: &Identifier) -> (r: bool) {
        self.numeric == other.numeric
    }
}

impl vstd::std_specs::cmp::PartialEqSpecImpl for Identifier {
    open spec fn obeys_eq_spec() -> bool {
        true
    }

    open spec fn eq_spec(&self, other: &Identifier) -> bool {
        self.numeric == other.numeric
    }
}

/// One puzzle completion event.  `timestamp` is in seconds since the Unix
/// epoch; `rank` is the provider-assigned position on the scraped listing
/// (1 to 100), and its absence marks a row that could not be fully parsed.
#[derive(Debug)]
pub struct Solution {
    pub timestamp: i64,
    pub year: i32,
    pub day: u8,
    pub part: ProblemPart,
    pub id: Identifier,
    pub rank: Option<u8>,
}

impl PartialEq for Solution {
    fn eq(&self, other: &Solution) -> (r: bool) {
        self.timestamp == other.timestamp && self.year == other.year && self.day == other.day
            && self.part == other.part && self.id.numeric == other.id.numeric && (match (
            self.rank,
            other.rank,
        ) {
            (Option::None, Option::None) => true,
            (Option::Some(a), Option::Some(b)) => a == b,
            _ => false,
        })
    }
}

impl vstd::std_specs::cmp::PartialEqSpecImpl for Solution {
    open spec fn obeys_eq_spec() -> bool {
        true
    }

    open spec fn eq_spec(&self, other: &Solution) -> bool {
        self.timestamp == other.timestamp && self.year == other.year && self.day == other.day
            && self.part == other.part && self.id.numeric == other.id.numeric && self.rank
            == other.rank
    }
}

/// The key under which a solve is unique inside one snapshot: at most one
/// solve per member, per day, per part.
pub open spec fn solve_key(s: Solution) -> (u64, u8, ProblemPart) {
    (s.id.numeric, s.day, s.part)
}

/// Some record in `s` carries the key `k`.
pub open spec fn has_key(s: Seq<Solution>, k: (u64, u8, ProblemPart)) -> bool {
    exists|i: int| 0 <= i < s.len() && solve_key(s[i]) == k
}

/// No two records share a `(member, day, part)` key: the snapshot invariant.
pub open spec fn distinct_keys(s: Seq<Solution>) -> bool {
    forall|i: int, j: int|
        0 <= i < j < s.len() ==> solve_key(s[i]) != solve_key(s[j])
}

/// A single record is well formed: the day is a calendar day of the event
/// and the instant is within the range the engine computes with.
pub open spec fn wf_solution(s: Solution) -> bool {
    &&& 1 <= s.day <= 25
    &&& -TS_LIMIT <= s.timestamp <= TS_LIMIT
}

/// A snapshot's record sequence is well formed: every record is, and the
/// uniqueness invariant holds.
pub open spec fn wf_records(s: Seq<Solution>) -> bool {
    &&& distinct_keys(s)
    &&& forall|i: int| 0 <= i < s.len() ==> wf_solution(#[trigger] s[i])
}

/// Some record in `s` belongs to the member with this numeric id.
pub open spec fn has_member(s: Seq<Solution>, numeric: u64) -> bool {
    exists|i: int| 0 <= i < s.len() && s[i].id.numeric == numeric
}

/// Index of the first record of the member with this numeric id.
pub open spec fn member_index(s: Seq<Solution>, numeric: u64) -> int
    decreases s.len(),
{
    if s.len() == 0 {
        0
    } else if s[0].id.numeric == numeric {
        0
    } else {
        1 + member_index(s.subrange(1, s.len() as int), numeric)
    }
}

/// The identifier under which a member is reported: the one on the first of
/// their records (arrival order).
pub open spec fn member_identity(s: Seq<Solution>, numeric: u64) -> Identifier {
    s[member_index(s, numeric)].id
}

/// `member_index` indeed points at the first record of the member.
pub proof fn lemma_member_index(s: Seq<Solution>, numeric: u64)
    requires
        has_member(s, numeric),
    ensures
        0 <= member_index(s, numeric) < s.len(),
        s[member_index(s, numeric)].id.numeric == numeric,
        forall|j: int| 0 <= j < member_index(s, numeric) ==> s[j].id.numeric != numeric,
    decreases s.len(),
{
    if s.len() > 0 && s[0].id.numeric != numeric {
        let rest = s.subrange(1, s.len() as int);
        assert(has_member(rest, numeric)) by {
            let i = choose|i: int| 0 <= i < s.len() && s[i].id.numeric == numeric;
            assert(rest[i - 1] == s[i]);
        }
        lemma_member_index(rest, numeric);
        assert forall|j: int| 0 <= j < member_index(s, numeric) implies s[j].id.numeric != numeric
        by {
            if j > 0 {
                assert(s[j] == rest[j - 1]);
            }
        }
    }
}

} // verus!

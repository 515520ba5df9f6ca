use vstd::prelude::*;

use crate::board::Leaderboard;
use crate::record::{distinct_keys, has_member, solve_key, wf_records, Identifier, ProblemPart, Solution};
use crate::sequtil::lemma_filter_push;
use crate::sorting::{ordered, sort_ranked, RankOrd};

verus! {

/// Upper bound on the number of records a snapshot may hold for the scoring
/// computations: keeps every score sum far below `u64::MAX`.
pub const MAX_RECORDS: usize = 0x4000_0000;

/// Whether the list of member identifiers contains this numeric id.
pub open spec fn ids_contain(ms: Seq<Identifier>, numeric: u64) -> bool {
    exists|i: int| 0 <= i < ms.len() && ms[i].numeric == numeric
}

/// The distinct members of a snapshot, in order of first appearance, each
/// under the identifier of their first record.
pub open spec fn spec_members(s: Seq<Solution>) -> Seq<Identifier>
    decreases s.len(),
{
    if s.len() == 0 {
        Seq::empty()
    } else {
        let prev = spec_members(s.drop_last());
        if ids_contain(prev, s.last().id.numeric) {
            prev
        } else {
            prev.push(s.last().id)
        }
    }
}

/// Total number of distinct members in the snapshot.
pub open spec fn n_members(s: Seq<Solution>) -> int {
    spec_members(s).len() as int
}

pub proof fn lemma_members_basic(s: Seq<Solution>)
    ensures
        spec_members(s).len() <= s.len(),
        forall|k1: int, k2: int|
            0 <= k1 < k2 < spec_members(s).len() ==> spec_members(s)[k1].numeric
                != spec_members(s)[k2].numeric,
        forall|u: u64| ids_contain(spec_members(s), u) <==> has_member(s, u),
    decreases s.len(),
{
    if s.len() > 0 {
        let prefix = s.drop_last();
        lemma_members_basic(prefix);
        let prev = spec_members(prefix);
        let ms = spec_members(s);
        assert forall|u: u64| ids_contain(ms, u) implies has_member(s, u) by {
            let k = choose|k: int| 0 <= k < ms.len() && ms[k].numeric == u;
            if k < prev.len() {
                assert(prev[k].numeric == u);
                assert(ids_contain(prev, u));
                assert(has_member(prefix, u));
                let j = choose|j: int| 0 <= j < prefix.len() && prefix[j].id.numeric == u;
                assert(prefix[j] == s[j]);
                assert(s[j].id.numeric == u);
            } else {
                assert(ms[k] == s.last().id);
                assert(s[s.len() - 1].id.numeric == u);
            }
        }
        assert forall|u: u64| has_member(s, u) implies ids_contain(ms, u) by {
            let j = choose|j: int| 0 <= j < s.len() && s[j].id.numeric == u;
            if j < s.len() - 1 {
                assert(prefix[j] == s[j]);
                assert(prefix[j].id.numeric == u);
                assert(has_member(prefix, u));
                assert(ids_contain(prev, u));
                let k = choose|k: int| 0 <= k < prev.len() && prev[k].numeric == u;
                assert(ms[k].numeric == u);
            } else {
                if ids_contain(prev, u) {
                    let k = choose|k: int| 0 <= k < prev.len() && prev[k].numeric == u;
                    assert(ms[k].numeric == u);
                } else {
                    assert(ms.last().numeric == u);
                }
            }
        }
    }
}

/// How many records in the first `n` belong to this member.
pub open spec fn cnt_member_upto(s: Seq<Solution>, numeric: u64, n: int) -> int
    decreases n,
{
    if n <= 0 {
        0
    } else {
        cnt_member_upto(s, numeric, n - 1) + if s[n - 1].id.numeric == numeric {
            1int
        } else {
            0int
        }
    }
}

/// How many records in the first `n` belong to this member on this day.
pub open spec fn cnt_member_day_upto(s: Seq<Solution>, numeric: u64, day: u8, n: int) -> int
    decreases n,
{
    if n <= 0 {
        0
    } else {
        cnt_member_day_upto(s, numeric, day, n - 1) + if s[n - 1].id.numeric == numeric && s[n
            - 1].day == day {
            1int
        } else {
            0int
        }
    }
}

/// Latest completion instant among the member's records in the first `n`
/// (`i64::MIN` when there is none).
pub open spec fn last_star_upto(s: Seq<Solution>, numeric: u64, n: int) -> i64
    decreases n,
{
    if n <= 0 {
        i64::MIN
    } else {
        let prev = last_star_upto(s, numeric, n - 1);
        if s[n - 1].id.numeric == numeric && s[n - 1].timestamp > prev {
            s[n - 1].timestamp
        } else {
            prev
        }
    }
}

/// Earliest completion instant among the member's records of a day in the
/// first `n` (`i64::MAX` when there is none).
pub open spec fn min_md_ts_upto(s: Seq<Solution>, numeric: u64, day: u8, n: int) -> i64
    decreases n,
{
    if n <= 0 {
        i64::MAX
    } else {
        let prev = min_md_ts_upto(s, numeric, day, n - 1);
        if s[n - 1].id.numeric == numeric && s[n - 1].day == day && s[n - 1].timestamp < prev {
            s[n - 1].timestamp
        } else {
            prev
        }
    }
}

/// Latest completion instant among the member's records of a day in the
/// first `n` (`i64::MIN` when there is none).
pub open spec fn max_md_ts_upto(s: Seq<Solution>, numeric: u64, day: u8, n: int) -> i64
    decreases n,
{
    if n <= 0 {
        i64::MIN
    } else {
        let prev = max_md_ts_upto(s, numeric, day, n - 1);
        if s[n - 1].id.numeric == numeric && s[n - 1].day == day && s[n - 1].timestamp > prev {
            s[n - 1].timestamp
        } else {
            prev
        }
    }
}

/// How many records among the first `n` stand strictly earlier, in the same
/// `(day, part)` group, than a solve at instant `ts` and arrival index `idx`
/// (ties in the instant are broken by arrival order).
pub open spec fn cnt_earlier_upto(
    s: Seq<Solution>,
    day: u8,
    part: ProblemPart,
    ts: i64,
    idx: int,
    n: int,
) -> int
    decreases n,
{
    if n <= 0 {
        0
    } else {
        cnt_earlier_upto(s, day, part, ts, idx, n - 1) + if s[n - 1].day == day && s[n - 1].part
            == part && (s[n - 1].timestamp < ts || (s[n - 1].timestamp == ts && n - 1 < idx)) {
            1int
        } else {
            0int
        }
    }
}

/// The zero-based position the solve at index `i` takes in its `(day, part)`
/// group when the group is ordered by completion instant, ties by arrival.
pub open spec fn star_rank(s: Seq<Solution>, i: int) -> int {
    cnt_earlier_upto(s, s[i].day, s[i].part, s[i].timestamp, i, s.len() as int)
}

/// Points the solve at index `i` earns: the number of members minus the
/// solve's position in its group.  (The position is always below the member
/// count for snapshots with distinct keys, so the guard never bites there.)
pub open spec fn star_score(s: Seq<Solution>, i: int) -> int {
    if star_rank(s, i) < n_members(s) {
        n_members(s) - star_rank(s, i)
    } else {
        0
    }
}

/// Sum of the member's earned points over their records among the first `n`,
/// restricted to one day.
pub open spec fn day_score_upto(s: Seq<Solution>, numeric: u64, day: u8, n: int) -> int
    decreases n,
{
    if n <= 0 {
        0
    } else {
        day_score_upto(s, numeric, day, n - 1) + if s[n - 1].id.numeric == numeric && s[n - 1].day
            == day {
            star_score(s, n - 1)
        } else {
            0
        }
    }
}

/// The member's score for one day: both parts' contributions together.
pub open spec fn member_day_score(s: Seq<Solution>, numeric: u64, day: u8) -> int {
    day_score_upto(s, numeric, day, s.len() as int)
}

/// Sum of the member's earned points over all their records.
pub open spec fn total_score_upto(s: Seq<Solution>, numeric: u64, n: int) -> int
    decreases n,
{
    if n <= 0 {
        0
    } else {
        total_score_upto(s, numeric, n - 1) + if s[n - 1].id.numeric == numeric {
            star_score(s, n - 1)
        } else {
            0
        }
    }
}

/// The member's total score across the whole snapshot.
pub open spec fn member_total_score(s: Seq<Solution>, numeric: u64) -> int {
    total_score_upto(s, numeric, s.len() as int)
}

/// One line of a score standings table.
pub struct ScoreLine {
    pub name: String,
    pub score: u64,
}

impl RankOrd for ScoreLine {
    open spec fn leq(self, other: Self) -> bool {
        self.score >= other.score
    }

    fn dup(&self) -> (r: Self)
        ensures
            r == *self,
    {
        ScoreLine { name: self.name.clone(), score: self.score }
    }

    proof fn lemma_leq_total(a: Self, b: Self) {
    }

    proof fn lemma_leq_trans(a: Self, b: Self, c: Self) {
    }

    fn le(&self, other: &Self) -> (r: bool)
        ensures
            r == self.leq(*other),
    {
        self.score >= other.score
    }
}

/// One line of the star-count standings: star total, with the instant of the
/// most recently earned star as tie-break.
pub struct StarLine {
    pub name: String,
    pub stars: usize,
    pub last_ts: i64,
}

impl RankOrd for StarLine {
    open spec fn leq(self, other: Self) -> bool {
        self.stars > other.stars || (self.stars == other.stars && self.last_ts <= other.last_ts)
    }

    fn dup(&self) -> (r: Self)
        ensures
            r == *self,
    {
        StarLine { name: self.name.clone(), stars: self.stars, last_ts: self.last_ts }
    }

    proof fn lemma_leq_total(a: Self, b: Self) {
    }

    proof fn lemma_leq_trans(a: Self, b: Self, c: Self) {
    }

    fn le(&self, other: &Self) -> (r: bool)
        ensures
            r == self.leq(*other),
    {
        self.stars > other.stars || (self.stars == other.stars && self.last_ts <= other.last_ts)
    }
}

/// One line of the per-day delta standings: the time between the member's two
/// part completions of the day.
pub struct DeltaLine {
    pub name: String,
    pub delta: i64,
}

impl RankOrd for DeltaLine {
    open spec fn leq(self, other: Self) -> bool {
        self.delta <= other.delta
    }

    fn dup(&self) -> (r: Self)
        ensures
            r == *self,
    {
        DeltaLine { name: self.name.clone(), delta: self.delta }
    }

    proof fn lemma_leq_total(a: Self, b: Self) {
    }

    proof fn lemma_leq_trans(a: Self, b: Self, c: Self) {
    }

    fn le(&self, other: &Self) -> (r: bool)
        ensures
            r == self.leq(*other),
    {
        self.delta <= other.delta
    }
}

impl RankOrd for Solution {
    open spec fn leq(self, other: Self) -> bool {
        self.timestamp <= other.timestamp
    }

    fn dup(&self) -> (r: Self)
        ensures
            r == *self,
    {
        self.clone()
    }

    proof fn lemma_leq_total(a: Self, b: Self) {
    }

    proof fn lemma_leq_trans(a: Self, b: Self, c: Self) {
    }

    fn le(&self, other: &Self) -> (r: bool)
        ensures
            r == self.leq(*other),
    {
        self.timestamp <= other.timestamp
    }
}

/// The score standings lines before ordering, one per member.
pub open spec fn spec_score_lines(s: Seq<Solution>) -> Seq<ScoreLine> {
    spec_members(s).map_values(
        |m: Identifier| ScoreLine { name: m.name, score: member_total_score(s, m.numeric) as u64 },
    )
}

/// The per-day score standings lines before ordering: members with a zero
/// day score are excluded.
pub open spec fn spec_day_lines(s: Seq<Solution>, day: u8) -> Seq<ScoreLine> {
    spec_members(s).map_values(
        |m: Identifier| ScoreLine { name: m.name, score: member_day_score(s, m.numeric, day) as u64 },
    ).filter(|l: ScoreLine| l.score > 0)
}

/// The star standings lines before ordering, one per member.
pub open spec fn spec_star_lines(s: Seq<Solution>) -> Seq<StarLine> {
    spec_members(s).map_values(
        |m: Identifier| StarLine {
            name: m.name,
            stars: cnt_member_upto(s, m.numeric, s.len() as int) as usize,
            last_ts: last_star_upto(s, m.numeric, s.len() as int),
        },
    )
}

/// The provider-score standings lines before ordering: only members with a
/// positive provider score appear.
pub open spec fn spec_global_lines(s: Seq<Solution>) -> Seq<ScoreLine> {
    spec_members(s).filter(|m: Identifier| m.global_score > 0).map_values(
        |m: Identifier| ScoreLine { name: m.name, score: m.global_score },
    )
}

/// The delta standings lines before ordering: only members with exactly two
/// records on the day appear; the delta is the gap between the two instants.
pub open spec fn spec_delta_lines(s: Seq<Solution>, day: u8) -> Seq<DeltaLine> {
    spec_members(s).filter(
        |m: Identifier| cnt_member_day_upto(s, m.numeric, day, s.len() as int) == 2,
    ).map_values(
        |m: Identifier| DeltaLine {
            name: m.name,
            delta: (max_md_ts_upto(s, m.numeric, day, s.len() as int) - min_md_ts_upto(
                s,
                m.numeric,
                day,
                s.len() as int,
            )) as i64,
        },
    )
}

/// `out` reports exactly the lines `base`, in an order every `RankOrd`-pair
/// of which is admissible, projected by `project`.
pub open spec fn standings_of<L: RankOrd, O>(
    base: Seq<L>,
    out: Seq<O>,
    project: spec_fn(L) -> O,
) -> bool {
    exists|lines: Seq<L>|
        #![all_triggers]
        lines.to_multiset() == base.to_multiset() && ordered(lines) && out == lines.map_values(
            project,
        )
}

impl Leaderboard {
    /// The distinct members, in order of first appearance.
    pub fn distinct_members(&self) -> (r: Vec<Identifier>)
        ensures
            r@ == spec_members(self@),
    {
        let n = self.records.len();
        let mut out: Vec<Identifier> = Vec::new();
        let mut i: usize = 0;
        while i < n
            invariant
                0 <= i <= n == self@.len(),
                out@ == spec_members(self@.take(i as int)),
            decreases n - i,
        {
            let u = self.records[i].id.numeric;
            let mut seen = false;
            let mut k: usize = 0;
            while k < out.len()
                invariant
                    0 <= k <= out@.len(),
                    seen == exists|j: int| 0 <= j < k && (#[trigger] out@[j]).numeric == u,
                decreases out@.len() - k,
            {
                if out[k].numeric == u {
                    seen = true;
                }
                k += 1;
            }
            proof {
                assert(seen == ids_contain(out@, u));
                assert(self@.take(i + 1).drop_last() =~= self@.take(i as int));
                assert(self@.take(i + 1).last() == self@[i as int]);
            }
            if !seen {
                out.push(self.records[i].id.clone());
            }
            i += 1;
        }
        proof {
            assert(self@.take(n as int) =~= self@);
        }
        out
    }

    /// The position of the solve at index `i` in its `(day, part)` group,
    /// ordered by completion instant with ties broken by arrival order.
    fn rank_of(&self, i: usize) -> (r: usize)
        requires
            i < self@.len(),
        ensures
            r == star_rank(self@, i as int),
    {
        let n = self.records.len();
        let day = self.records[i].day;
        let part = self.records[i].part;
        let ts = self.records[i].timestamp;
        let mut cnt: usize = 0;
        let mut k: usize = 0;
        while k < n
            invariant
                0 <= k <= n == self@.len(),
                i < n,
                day == self@[i as int].day,
                part == self@[i as int].part,
                ts == self@[i as int].timestamp,
                cnt == cnt_earlier_upto(self@, day, part, ts, i as int, k as int),
                cnt <= k,
            decreases n - k,
        {
            let e = &self.records[k];
            if e.day == day && e.part == part && (e.timestamp < ts || (e.timestamp == ts && k < i)) {
                cnt += 1;
            }
            k += 1;
        }
        cnt
    }

    /// The member's total score: for every record, the number of members
    /// minus the record's position in its group.
    fn total_score_of(&self, numeric: u64, n_mem: usize) -> (r: u64)
        requires
            self@.len() <= MAX_RECORDS,
            n_mem == n_members(self@),
        ensures
            r == member_total_score(self@, numeric),
    {
        proof {
            lemma_members_basic(self@);
        }
        let n = self.records.len();
        let mut acc: u64 = 0;
        let mut k: usize = 0;
        while k < n
            invariant
                0 <= k <= n == self@.len(),
                n <= MAX_RECORDS,
                n_mem == n_members(self@),
                n_mem <= n,
                acc == total_score_upto(self@, numeric, k as int),
                acc <= (k as int) * (MAX_RECORDS as int),
            decreases n - k,
        {
            if self.records[k].id.numeric == numeric {
                let rank = self.rank_of(k);
                let sc: u64 = if (rank as u64) < (n_mem as u64) {
                    (n_mem as u64) - (rank as u64)
                } else {
                    0
                };
                proof {
                    assert(sc == star_score(self@, k as int));
                    assert(sc <= MAX_RECORDS as int);
                }
                acc += sc;
            }
            k += 1;
        }
        acc
    }

    /// The member's score restricted to one day.
    fn day_score_of(&self, numeric: u64, day: u8, n_mem: usize) -> (r: u64)
        requires
            self@.len() <= MAX_RECORDS,
            n_mem == n_members(self@),
        ensures
            r == member_day_score(self@, numeric, day),
    {
        proof {
            lemma_members_basic(self@);
        }
        let n = self.records.len();
        let mut acc: u64 = 0;
        let mut k: usize = 0;
        while k < n
            invariant
                0 <= k <= n == self@.len(),
                n <= MAX_RECORDS,
                n_mem == n_members(self@),
                n_mem <= n,
                acc == day_score_upto(self@, numeric, day, k as int),
                acc <= (k as int) * (MAX_RECORDS as int),
            decreases n - k,
        {
            if self.records[k].id.numeric == numeric && self.records[k].day == day {
                let rank = self.rank_of(k);
                let sc: u64 = if (rank as u64) < (n_mem as u64) {
                    (n_mem as u64) - (rank as u64)
                } else {
                    0
                };
                proof {
                    assert(sc == star_score(self@, k as int));
                    assert(sc <= MAX_RECORDS as int);
                }
                acc += sc;
            }
            k += 1;
        }
        acc
    }

    /// Score standings: every member's total score, ordered descending.
    pub fn standings_by_local_score(&self) -> (r: Vec<(String, u64)>)
        requires
            self@.len() <= MAX_RECORDS,
        ensures
            standings_of(
                spec_score_lines(self@),
                r@,
                |l: ScoreLine| (l.name, l.score),
            ),
    {
        let members = self.distinct_members();
        let n_mem = members.len();
        let mut lines: Vec<ScoreLine> = Vec::new();
        let mut k: usize = 0;
        while k < members.len()
            invariant
                0 <= k <= members@.len(),
                members@ == spec_members(self@),
                n_mem == members@.len(),
                self@.len() <= MAX_RECORDS,
                lines@ == members@.take(k as int).map_values(
                    |m: Identifier| ScoreLine {
                        name: m.name,
                        score: member_total_score(self@, m.numeric) as u64,
                    },
                ),
            decreases members@.len() - k,
        {
            let sc = self.total_score_of(members[k].numeric, n_mem);
            lines.push(ScoreLine { name: members[k].name.clone(), score: sc });
            proof {
                let f = |m: Identifier| ScoreLine {
                    name: m.name,
                    score: member_total_score(self@, m.numeric) as u64,
                };
                assert(members@.take(k + 1) =~= members@.take(k as int).push(members@[k as int]));
                assert(members@.take(k + 1).map_values(f) =~= members@.take(k as int).map_values(
                    f,
                ).push(f(members@[k as int])));
            }
            k += 1;
        }
        proof {
            assert(members@.take(members@.len() as int) =~= members@);
        }
        let sorted = sort_ranked(&lines);
        let r = project_score_lines(&sorted);
        proof {
            let project = |l: ScoreLine| (l.name, l.score);
            assert(lines@.to_multiset() == spec_score_lines(self@).to_multiset());
            assert(sorted@.to_multiset() == spec_score_lines(self@).to_multiset() && ordered(
                sorted@,
            ) && r@ == sorted@.map_values(project));
        }
        r
    }

    /// Per-day score standings: members with a positive score for the day,
    /// ordered descending.
    pub fn standings_by_local_score_for_day(&self, day: u8) -> (r: Vec<(String, u64)>)
        requires
            self@.len() <= MAX_RECORDS,
        ensures
            standings_of(
                spec_day_lines(self@, day),
                r@,
                |l: ScoreLine| (l.name, l.score),
            ),
    {
        let members = self.distinct_members();
        let n_mem = members.len();
        let mut lines: Vec<ScoreLine> = Vec::new();
        let mut k: usize = 0;
        while k < members.len()
            invariant
                0 <= k <= members@.len(),
                members@ == spec_members(self@),
                n_mem == members@.len(),
                self@.len() <= MAX_RECORDS,
                lines@ == members@.take(k as int).map_values(
                    |m: Identifier| ScoreLine {
                        name: m.name,
                        score: member_day_score(self@, m.numeric, day) as u64,
                    },
                ).filter(|l: ScoreLine| l.score > 0),
            decreases members@.len() - k,
        {
            let ghost f = |m: Identifier| ScoreLine {
                name: m.name,
                score: member_day_score(self@, m.numeric, day) as u64,
            };
            let sc = self.day_score_of(members[k].numeric, day, n_mem);
            if sc > 0 {
                lines.push(ScoreLine { name: members[k].name.clone(), score: sc });
            }
            proof {
                assert(members@.take(k + 1) =~= members@.take(k as int).push(members@[k as int]));
                assert(members@.take(k + 1).map_values(f) =~= members@.take(k as int).map_values(
                    f,
                ).push(f(members@[k as int])));
                lemma_filter_push(
                    members@.take(k as int).map_values(f),
                    |l: ScoreLine| l.score > 0,
                    f(members@[k as int]),
                );
            }
            k += 1;
        }
        proof {
            assert(members@.take(members@.len() as int) =~= members@);
        }
        let sorted = sort_ranked(&lines);
        let r = project_score_lines(&sorted);
        proof {
            let project = |l: ScoreLine| (l.name, l.score);
            assert(sorted@.to_multiset() == spec_day_lines(self@, day).to_multiset() && ordered(
                sorted@,
            ) && r@ == sorted@.map_values(project));
        }
        r
    }

    /// Provider-score standings: members with a positive provider score,
    /// ordered descending by that score.
    pub fn standings_by_global_score(&self) -> (r: Vec<(String, u64)>)
        ensures
            standings_of(
                spec_global_lines(self@),
                r@,
                |l: ScoreLine| (l.name, l.score),
            ),
    {
        let members = self.distinct_members();
        let mut lines: Vec<ScoreLine> = Vec::new();
        let mut k: usize = 0;
        while k < members.len()
            invariant
                0 <= k <= members@.len(),
                members@ == spec_members(self@),
                lines@ == members@.take(k as int).filter(|m: Identifier| m.global_score > 0)
                    .map_values(|m: Identifier| ScoreLine { name: m.name, score: m.global_score }),
            decreases members@.len() - k,
        {
            proof {
                assert(members@.take(k + 1) =~= members@.take(k as int).push(members@[k as int]));
                lemma_filter_push(
                    members@.take(k as int),
                    |m: Identifier| m.global_score > 0,
                    members@[k as int],
                );
                let fm = |m: Identifier| ScoreLine { name: m.name, score: m.global_score };
                let fl = members@.take(k as int).filter(|m: Identifier| m.global_score > 0);
                assert(fl.push(members@[k as int]).map_values(fm) =~= fl.map_values(fm).push(
                    fm(members@[k as int]),
                ));
            }
            if members[k].global_score > 0 {
                lines.push(
                    ScoreLine { name: members[k].name.clone(), score: members[k].global_score },
                );
            }
            k += 1;
        }
        proof {
            assert(members@.take(members@.len() as int) =~= members@);
        }
        let sorted = sort_ranked(&lines);
        let r = project_score_lines(&sorted);
        proof {
            let project = |l: ScoreLine| (l.name, l.score);
            assert(sorted@.to_multiset() == spec_global_lines(self@).to_multiset() && ordered(
                sorted@,
            ) && r@ == sorted@.map_values(project));
        }
        r
    }

    /// Star standings: every member's star count, ordered descending by
    /// count; equal counts are ordered ascending by the instant of the most
    /// recently earned star (earlier last star stands higher).
    pub fn standings_by_number_of_stars(&self) -> (r: Vec<(String, usize)>)
        ensures
            standings_of(
                spec_star_lines(self@),
                r@,
                |l: StarLine| (l.name, l.stars),
            ),
    {
        let members = self.distinct_members();
        let mut lines: Vec<StarLine> = Vec::new();
        let mut k: usize = 0;
        while k < members.len()
            invariant
                0 <= k <= members@.len(),
                members@ == spec_members(self@),
                lines@ == members@.take(k as int).map_values(
                    |m: Identifier| StarLine {
                        name: m.name,
                        stars: cnt_member_upto(self@, m.numeric, self@.len() as int) as usize,
                        last_ts: last_star_upto(self@, m.numeric, self@.len() as int),
                    },
                ),
            decreases members@.len() - k,
        {
            let u = members[k].numeric;
            let n = self.records.len();
            let mut stars: usize = 0;
            let mut last_ts: i64 = i64::MIN;
            let mut j: usize = 0;
            while j < n
                invariant
                    0 <= j <= n == self@.len(),
                    stars == cnt_member_upto(self@, u, j as int),
                    stars <= j,
                    last_ts == last_star_upto(self@, u, j as int),
                decreases n - j,
            {
                if self.records[j].id.numeric == u {
                    stars += 1;
                    if self.records[j].timestamp > last_ts {
                        last_ts = self.records[j].timestamp;
                    }
                }
                j += 1;
            }
            lines.push(StarLine { name: members[k].name.clone(), stars, last_ts });
            proof {
                let f = |m: Identifier| StarLine {
                    name: m.name,
                    stars: cnt_member_upto(self@, m.numeric, self@.len() as int) as usize,
                    last_ts: last_star_upto(self@, m.numeric, self@.len() as int),
                };
                assert(members@.take(k + 1) =~= members@.take(k as int).push(members@[k as int]));
                assert(members@.take(k + 1).map_values(f) =~= members@.take(k as int).map_values(
                    f,
                ).push(f(members@[k as int])));
            }
            k += 1;
        }
        proof {
            assert(members@.take(members@.len() as int) =~= members@);
        }
        let sorted = sort_ranked(&lines);
        let mut r: Vec<(String, usize)> = Vec::new();
        let mut k2: usize = 0;
        while k2 < sorted.len()
            invariant
                0 <= k2 <= sorted@.len(),
                r@ == sorted@.take(k2 as int).map_values(|l: StarLine| (l.name, l.stars)),
            decreases sorted@.len() - k2,
        {
            r.push((sorted[k2].name.clone(), sorted[k2].stars));
            proof {
                let p = |l: StarLine| (l.name, l.stars);
                assert(sorted@.take(k2 + 1) =~= sorted@.take(k2 as int).push(sorted@[k2 as int]));
                assert(sorted@.take(k2 + 1).map_values(p) =~= sorted@.take(k2 as int).map_values(
                    p,
                ).push(p(sorted@[k2 as int])));
            }
            k2 += 1;
        }
        proof {
            assert(sorted@.take(sorted@.len() as int) =~= sorted@);
            let project = |l: StarLine| (l.name, l.stars);
            assert(sorted@.to_multiset() == spec_star_lines(self@).to_multiset() && ordered(
                sorted@,
            ) && r@ == sorted@.map_values(project));
        }
        r
    }

    /// Per-day delta standings: members with exactly two records on the day,
    /// with the gap between the two completion instants, ordered ascending.
    /// Under the snapshot invariant a member can never have more than two
    /// records for one day, so no other group size occurs.
    pub fn standings_by_delta_for_day(&self, day: u8) -> (r: Vec<(String, i64)>)
        requires
            wf_records(self@),
        ensures
            standings_of(
                spec_delta_lines(self@, day),
                r@,
                |l: DeltaLine| (l.name, l.delta),
            ),
    {
        let members = self.distinct_members();
        let mut lines: Vec<DeltaLine> = Vec::new();
        let mut k: usize = 0;
        while k < members.len()
            invariant
                0 <= k <= members@.len(),
                members@ == spec_members(self@),
                wf_records(self@),
                lines@ == members@.take(k as int).filter(
                    |m: Identifier| cnt_member_day_upto(self@, m.numeric, day, self@.len() as int)
                        == 2,
                ).map_values(
                    |m: Identifier| DeltaLine {
                        name: m.name,
                        delta: (max_md_ts_upto(self@, m.numeric, day, self@.len() as int)
                            - min_md_ts_upto(self@, m.numeric, day, self@.len() as int)) as i64,
                    },
                ),
            decreases members@.len() - k,
        {
            let u = members[k].numeric;
            let n = self.records.len();
            let mut cnt: usize = 0;
            let mut min_ts: i64 = i64::MAX;
            let mut max_ts: i64 = i64::MIN;
            let mut j: usize = 0;
            while j < n
                invariant
                    0 <= j <= n == self@.len(),
                    cnt == cnt_member_day_upto(self@, u, day, j as int),
                    cnt <= j,
                    min_ts == min_md_ts_upto(self@, u, day, j as int),
                    max_ts == max_md_ts_upto(self@, u, day, j as int),
                    wf_records(self@),
                decreases n - j,
            {
                let e = &self.records[j];
                if e.id.numeric == u && e.day == day {
                    cnt += 1;
                    if e.timestamp < min_ts {
                        min_ts = e.timestamp;
                    }
                    if e.timestamp > max_ts {
                        max_ts = e.timestamp;
                    }
                }
                j += 1;
            }
            proof {
                lemma_md_bounds(self@, u, day, self@.len() as int);
                assert(members@.take(k + 1) =~= members@.take(k as int).push(members@[k as int]));
                let pred = |m: Identifier| cnt_member_day_upto(self@, m.numeric, day, self@.len() as int)
                    == 2;
                lemma_filter_push(members@.take(k as int), pred, members@[k as int]);
                let fm = |m: Identifier| DeltaLine {
                    name: m.name,
                    delta: (max_md_ts_upto(self@, m.numeric, day, self@.len() as int)
                        - min_md_ts_upto(self@, m.numeric, day, self@.len() as int)) as i64,
                };
                let fl = members@.take(k as int).filter(pred);
                assert(fl.push(members@[k as int]).map_values(fm) =~= fl.map_values(fm).push(
                    fm(members@[k as int]),
                ));
            }
            if cnt == 2 {
                proof {
                    let nl = self@.len() as int;
                    let i = choose|i: int|
                        0 <= i < nl && #[trigger] md_match(self@, u, day, i) && self@[i].timestamp
                            == max_md_ts_upto(self@, u, day, nl);
                    let j2 = choose|j2: int|
                        0 <= j2 < nl && #[trigger] md_match(self@, u, day, j2)
                            && self@[j2].timestamp == min_md_ts_upto(self@, u, day, nl);
                    assert(crate::record::wf_solution(self@[i]));
                    assert(crate::record::wf_solution(self@[j2]));
                }
                let delta = max_ts - min_ts;
                lines.push(DeltaLine { name: members[k].name.clone(), delta });
            }
            k += 1;
        }
        proof {
            assert(members@.take(members@.len() as int) =~= members@);
        }
        let sorted = sort_ranked(&lines);
        let mut r: Vec<(String, i64)> = Vec::new();
        let mut k2: usize = 0;
        while k2 < sorted.len()
            invariant
                0 <= k2 <= sorted@.len(),
                r@ == sorted@.take(k2 as int).map_values(|l: DeltaLine| (l.name, l.delta)),
            decreases sorted@.len() - k2,
        {
            r.push((sorted[k2].name.clone(), sorted[k2].delta));
            proof {
                let p = |l: DeltaLine| (l.name, l.delta);
                assert(sorted@.take(k2 + 1) =~= sorted@.take(k2 as int).push(sorted@[k2 as int]));
                assert(sorted@.take(k2 + 1).map_values(p) =~= sorted@.take(k2 as int).map_values(
                    p,
                ).push(p(sorted@[k2 as int])));
            }
            k2 += 1;
        }
        proof {
            assert(sorted@.take(sorted@.len() as int) =~= sorted@);
            let project = |l: DeltaLine| (l.name, l.delta);
            assert(sorted@.to_multiset() == spec_delta_lines(self@, day).to_multiset() && ordered(
                sorted@,
            ) && r@ == sorted@.map_values(project));
        }
        r
    }
}

/// The distinct `(day, part)` challenges of a snapshot, in order of first
/// appearance.
pub open spec fn spec_challenges(s: Seq<Solution>) -> Seq<(u8, ProblemPart)>
    decreases s.len(),
{
    if s.len() == 0 {
        Seq::empty()
    } else {
        let prev = spec_challenges(s.drop_last());
        let c = (s.last().day, s.last().part);
        if prev.contains(c) {
            prev
        } else {
            prev.push(c)
        }
    }
}

/// All records of one challenge, in arrival order.
pub open spec fn challenge_group(s: Seq<Solution>, c: (u8, ProblemPart)) -> Seq<Solution> {
    s.filter(|r: Solution| r.day == c.0 && r.part == c.1)
}

/// `ids` lists the solvers of challenge `c` in `s`, ordered by completion
/// instant.
pub open spec fn challenge_entry_ok(
    s: Seq<Solution>,
    c: (u8, ProblemPart),
    ids: Seq<Identifier>,
) -> bool {
    exists|g: Seq<Solution>|
        #![all_triggers]
        g.to_multiset() == challenge_group(s, c).to_multiset() && ordered(g) && ids == g.map_values(
            |r: Solution| r.id,
        )
}

impl Leaderboard {
    /// For every challenge with at least one solve, its solvers ordered by
    /// completion instant.
    pub fn standings_per_challenge(&self) -> (r: Vec<((u8, ProblemPart), Vec<Identifier>)>)
        ensures
            r@.len() == spec_challenges(self@).len(),
            forall|k: int|
                0 <= k < r@.len() ==> (#[trigger] r@[k]).0 == spec_challenges(self@)[k]
                    && challenge_entry_ok(self@, r@[k].0, r@[k].1@),
    {
        let n = self.records.len();
        let mut chs: Vec<(u8, ProblemPart)> = Vec::new();
        let mut i: usize = 0;
        while i < n
            invariant
                0 <= i <= n == self@.len(),
                chs@ == spec_challenges(self@.take(i as int)),
            decreases n - i,
        {
            let day = self.records[i].day;
            let part = self.records[i].part;
            let mut seen = false;
            let mut k: usize = 0;
            while k < chs.len()
                invariant
                    0 <= k <= chs@.len(),
                    seen == exists|j: int| 0 <= j < k && #[trigger] chs@[j] == (day, part),
                decreases chs@.len() - k,
            {
                if chs[k].0 == day && chs[k].1 == part {
                    seen = true;
                }
                k += 1;
            }
            proof {
                assert(seen == chs@.contains((day, part)));
                assert(self@.take(i + 1).drop_last() =~= self@.take(i as int));
                assert(self@.take(i + 1).last() == self@[i as int]);
            }
            if !seen {
                chs.push((day, part));
            }
            i += 1;
        }
        proof {
            assert(self@.take(n as int) =~= self@);
        }
        let mut r: Vec<((u8, ProblemPart), Vec<Identifier>)> = Vec::new();
        let mut k: usize = 0;
        while k < chs.len()
            invariant
                0 <= k <= chs@.len(),
                chs@ == spec_challenges(self@),
                n == self@.len(),
                r@.len() == k,
                forall|k2: int|
                    0 <= k2 < k ==> (#[trigger] r@[k2]).0 == spec_challenges(self@)[k2]
                        && challenge_entry_ok(self@, r@[k2].0, r@[k2].1@),
            decreases chs@.len() - k,
        {
            let day = chs[k].0;
            let part = chs[k].1;
            let mut group: Vec<Solution> = Vec::new();
            let mut j: usize = 0;
            while j < n
                invariant
                    0 <= j <= n == self@.len(),
                    group@ == self@.take(j as int).filter(
                        |e: Solution| e.day == day && e.part == part,
                    ),
                decreases n - j,
            {
                proof {
                    assert(self@.take(j + 1) =~= self@.take(j as int).push(self@[j as int]));
                    lemma_filter_push(
                        self@.take(j as int),
                        |e: Solution| e.day == day && e.part == part,
                        self@[j as int],
                    );
                }
                if self.records[j].day == day && self.records[j].part == part {
                    group.push(self.records[j].clone());
                }
                j += 1;
            }
            proof {
                assert(self@.take(n as int) =~= self@);
            }
            let sorted = sort_ranked(&group);
            let mut ids: Vec<Identifier> = Vec::new();
            let mut j2: usize = 0;
            while j2 < sorted.len()
                invariant
                    0 <= j2 <= sorted@.len(),
                    ids@ == sorted@.take(j2 as int).map_values(|e: Solution| e.id),
                decreases sorted@.len() - j2,
            {
                ids.push(sorted[j2].id.clone());
                proof {
                    let p = |e: Solution| e.id;
                    assert(sorted@.take(j2 + 1) =~= sorted@.take(j2 as int).push(
                        sorted@[j2 as int],
                    ));
                    assert(sorted@.take(j2 + 1).map_values(p) =~= sorted@.take(j2 as int)
                        .map_values(p).push(p(sorted@[j2 as int])));
                }
                j2 += 1;
            }
            proof {
                assert(sorted@.take(sorted@.len() as int) =~= sorted@);
                assert(sorted@.to_multiset() == challenge_group(self@, (day, part)).to_multiset()
                    && ordered(sorted@) && ids@ == sorted@.map_values(|e: Solution| e.id));
                assert(challenge_entry_ok(self@, (day, part), ids@));
            }
            r.push(((day, part), ids));
            k += 1;
        }
        r
    }
}

/// Project score standings lines to `(name, score)` pairs.
fn project_score_lines(sorted: &Vec<ScoreLine>) -> (r: Vec<(String, u64)>)
    ensures
        r@ == sorted@.map_values(|l: ScoreLine| (l.name, l.score)),
{
    let mut r: Vec<(String, u64)> = Vec::new();
    let mut k: usize = 0;
    while k < sorted.len()
        invariant
            0 <= k <= sorted@.len(),
            r@ == sorted@.take(k as int).map_values(|l: ScoreLine| (l.name, l.score)),
        decreases sorted@.len() - k,
    {
        r.push((sorted[k].name.clone(), sorted[k].score));
        proof {
            let p = |l: ScoreLine| (l.name, l.score);
            assert(sorted@.take(k + 1) =~= sorted@.take(k as int).push(sorted@[k as int]));
            assert(sorted@.take(k + 1).map_values(p) =~= sorted@.take(k as int).map_values(p).push(
                p(sorted@[k as int]),
            ));
        }
        k += 1;
    }
    proof {
        assert(sorted@.take(sorted@.len() as int) =~= sorted@);
    }
    r
}

/// When the snapshot invariant holds, a member has at most two records for
/// one day (one per part); with exactly two, their instants bound each other.
pub proof fn lemma_md_bounds(s: Seq<Solution>, numeric: u64, day: u8, n: int)
    requires
        distinct_keys(s),
        0 <= n <= s.len(),
    ensures
        0 <= cnt_member_day_upto(s, numeric, day, n) <= 2,
        cnt_member_day_upto(s, numeric, day, n) >= 1 ==> exists|i: int|
            0 <= i < n && #[trigger] md_match(s, numeric, day, i),
        cnt_member_day_upto(s, numeric, day, n) == 2 ==> exists|i: int, j: int|
            0 <= i < j < n && #[trigger] md_match(s, numeric, day, i) && #[trigger] md_match(
                s,
                numeric,
                day,
                j,
            ) && s[i].part != s[j].part,
        cnt_member_day_upto(s, numeric, day, n) >= 1 ==> exists|i: int|
            0 <= i < n && #[trigger] md_match(s, numeric, day, i) && s[i].timestamp
                == max_md_ts_upto(s, numeric, day, n),
        cnt_member_day_upto(s, numeric, day, n) >= 1 ==> exists|i: int|
            0 <= i < n && #[trigger] md_match(s, numeric, day, i) && s[i].timestamp
                == min_md_ts_upto(s, numeric, day, n),
        cnt_member_day_upto(s, numeric, day, n) >= 1 ==> min_md_ts_upto(s, numeric, day, n)
            <= max_md_ts_upto(s, numeric, day, n),
        cnt_member_day_upto(s, numeric, day, n) == 0 ==> min_md_ts_upto(s, numeric, day, n)
            == i64::MAX && max_md_ts_upto(s, numeric, day, n) == i64::MIN,
    decreases n,
{
    if n > 0 {
        lemma_md_bounds(s, numeric, day, n - 1);
        let c_prev = cnt_member_day_upto(s, numeric, day, n - 1);
        let min_prev = min_md_ts_upto(s, numeric, day, n - 1);
        let max_prev = max_md_ts_upto(s, numeric, day, n - 1);
        if s[n - 1].id.numeric == numeric && s[n - 1].day == day {
            let ts = s[n - 1].timestamp;
            assert(cnt_member_day_upto(s, numeric, day, n) == c_prev + 1);
            assert(min_md_ts_upto(s, numeric, day, n) == if ts < min_prev {
                ts
            } else {
                min_prev
            });
            assert(max_md_ts_upto(s, numeric, day, n) == if ts > max_prev {
                ts
            } else {
                max_prev
            });
            if c_prev == 0 {
                assert(min_md_ts_upto(s, numeric, day, n) == ts);
                assert(max_md_ts_upto(s, numeric, day, n) == ts);
                assert(md_match(s, numeric, day, n - 1));
            }
            assert(md_match(s, numeric, day, n - 1));
            if c_prev == 2 {
                let (i, j) = choose|i: int, j: int|
                    0 <= i < j < n - 1 && #[trigger] md_match(s, numeric, day, i)
                        && #[trigger] md_match(s, numeric, day, j) && s[i].part != s[j].part;
                assert(s[n - 1].part == s[i].part || s[n - 1].part == s[j].part) by {
                    match s[n - 1].part {
                        ProblemPart::FIRST => {
                            assert(s[i].part == ProblemPart::FIRST || s[j].part
                                == ProblemPart::FIRST);
                        },
                        ProblemPart::SECOND => {
                            assert(s[i].part == ProblemPart::SECOND || s[j].part
                                == ProblemPart::SECOND);
                        },
                    }
                }
                if s[n - 1].part == s[i].part {
                    assert(solve_key(s[i]) == solve_key(s[n - 1]));
                    assert(false);
                } else {
                    assert(solve_key(s[j]) == solve_key(s[n - 1]));
                    assert(false);
                }
            } else if c_prev == 1 {
                let i = choose|i: int| 0 <= i < n - 1 && #[trigger] md_match(s, numeric, day, i);
                assert(s[i].part != s[n - 1].part) by {
                    if s[i].part == s[n - 1].part {
                        assert(solve_key(s[i]) == solve_key(s[n - 1]));
                    }
                }
            }
        } else {
            assert(cnt_member_day_upto(s, numeric, day, n) == c_prev);
            assert(min_md_ts_upto(s, numeric, day, n) == min_prev);
            assert(max_md_ts_upto(s, numeric, day, n) == max_prev);
        }
    }
}

/// The record at index `i` belongs to the member and the day.
pub open spec fn md_match(s: Seq<Solution>, numeric: u64, day: u8, i: int) -> bool {
    s[i].id.numeric == numeric && s[i].day == day
}

} // verus!

use vstd::prelude::*;

use crate::board::Leaderboard;
use crate::record::{wf_records, wf_solution, ProblemPart, Solution, TS_LIMIT};
use crate::sequtil::lemma_filter_push;
use crate::standings::{ids_contain, lemma_members_basic, spec_members};
use crate::timeparse::now_timestamp;

verus! {

/// Timing statistics for one challenge day.  Offsets and deltas are in
/// seconds; a delta is paired with the rank of the completing record (or the
/// sentinel 101 for an out-of-board bound, which the filter below excludes).
#[derive(Debug)]
pub struct LeaderboardStatistics {
    pub p1_time_fast: Option<i64>,
    pub p1_time_slow: Option<i64>,
    pub p2_time_fast: Option<i64>,
    pub p2_time_slow: Option<i64>,
    pub delta_fast: Option<(i64, u8)>,
    pub delta_slow: Option<(i64, u8)>,
}

/// Why a statistics computation could not be carried out.
#[derive(Debug, Clone, Copy, PartialEq, Eq, Structural)]
pub enum StatisticsError {
    /// The requested day has no record for one of the two parts.
    NoDataForDay,
    /// Some member holds more than two ranked records: the snapshot is
    /// internally inconsistent.
    InconsistentSnapshot,
}

/// A snapshot together with the instant at which it was captured.
#[derive(Debug)]
pub struct ScrapedLeaderboard {
    pub timestamp: i64,
    pub leaderboard: Leaderboard,
}

/// Count of records of one `(year, day, part)` among the first `n`.
pub open spec fn cnt_ydp_upto(s: Seq<Solution>, year: i32, day: u8, part: ProblemPart, n: int) -> int
    decreases n,
{
    if n <= 0 {
        0
    } else {
        cnt_ydp_upto(s, year, day, part, n - 1) + if ydp_match(s, year, day, part, n - 1) {
            1int
        } else {
            0int
        }
    }
}

/// The record at index `i` belongs to this year, day and part.
pub open spec fn ydp_match(s: Seq<Solution>, year: i32, day: u8, part: ProblemPart, i: int) -> bool {
    s[i].year == year && s[i].day == day && s[i].part == part
}

/// Earliest instant of the `(year, day, part)` records among the first `n`
/// (`i64::MAX` when there is none).
pub open spec fn min_ydp_upto(s: Seq<Solution>, year: i32, day: u8, part: ProblemPart, n: int) -> i64
    decreases n,
{
    if n <= 0 {
        i64::MAX
    } else {
        let prev = min_ydp_upto(s, year, day, part, n - 1);
        if ydp_match(s, year, day, part, n - 1) && s[n - 1].timestamp < prev {
            s[n - 1].timestamp
        } else {
            prev
        }
    }
}

/// Latest instant of the `(year, day, part)` records among the first `n`
/// (`i64::MIN` when there is none).
pub open spec fn max_ydp_upto(s: Seq<Solution>, year: i32, day: u8, part: ProblemPart, n: int) -> i64
    decreases n,
{
    if n <= 0 {
        i64::MIN
    } else {
        let prev = max_ydp_upto(s, year, day, part, n - 1);
        if ydp_match(s, year, day, part, n - 1) && s[n - 1].timestamp > prev {
            s[n - 1].timestamp
        } else {
            prev
        }
    }
}

/// Latest instant of all records of one part, any day and year, among the
/// first `n` (`i64::MIN` when there is none).
pub open spec fn max_part_upto(s: Seq<Solution>, part: ProblemPart, n: int) -> i64
    decreases n,
{
    if n <= 0 {
        i64::MIN
    } else {
        let prev = max_part_upto(s, part, n - 1);
        if s[n - 1].part == part && s[n - 1].timestamp > prev {
            s[n - 1].timestamp
        } else {
            prev
        }
    }
}

pub proof fn lemma_ydp_bounds(s: Seq<Solution>, year: i32, day: u8, part: ProblemPart, n: int)
    requires
        0 <= n <= s.len(),
    ensures
        cnt_ydp_upto(s, year, day, part, n) >= 0,
        cnt_ydp_upto(s, year, day, part, n) >= 1 ==> exists|i: int|
            0 <= i < n && #[trigger] ydp_match(s, year, day, part, i) && s[i].timestamp
                == min_ydp_upto(s, year, day, part, n),
        cnt_ydp_upto(s, year, day, part, n) >= 1 ==> exists|i: int|
            0 <= i < n && #[trigger] ydp_match(s, year, day, part, i) && s[i].timestamp
                == max_ydp_upto(s, year, day, part, n),
        cnt_ydp_upto(s, year, day, part, n) >= 1 ==> min_ydp_upto(s, year, day, part, n)
            <= max_ydp_upto(s, year, day, part, n),
        cnt_ydp_upto(s, year, day, part, n) == 0 ==> min_ydp_upto(s, year, day, part, n)
            == i64::MAX && max_ydp_upto(s, year, day, part, n) == i64::MIN,
    decreases n,
{
    if n > 0 {
        lemma_ydp_bounds(s, year, day, part, n - 1);
        if ydp_match(s, year, day, part, n - 1) && cnt_ydp_upto(s, year, day, part, n - 1) == 0 {
            assert(min_ydp_upto(s, year, day, part, n) == s[n - 1].timestamp);
            assert(max_ydp_upto(s, year, day, part, n) == s[n - 1].timestamp);
            assert(ydp_match(s, year, day, part, n - 1));
        }
    }
}

/// The per-part maximum dominates every record of the part, and when some
/// record of the part exists it is one of their instants.
pub proof fn lemma_part_max(s: Seq<Solution>, part: ProblemPart, n: int)
    requires
        0 <= n <= s.len(),
    ensures
        forall|i: int|
            0 <= i < n && (#[trigger] s[i]).part == part ==> s[i].timestamp <= max_part_upto(
                s,
                part,
                n,
            ),
        max_part_upto(s, part, n) == i64::MIN || exists|i: int|
            0 <= i < n && (#[trigger] s[i]).part == part && s[i].timestamp == max_part_upto(
                s,
                part,
                n,
            ),
    decreases n,
{
    if n > 0 {
        lemma_part_max(s, part, n - 1);
        let prev = max_part_upto(s, part, n - 1);
        if s[n - 1].part == part && s[n - 1].timestamp > prev {
            assert(max_part_upto(s, part, n) == s[n - 1].timestamp);
            assert((#[trigger] s[n - 1]).part == part);
        } else {
            assert(max_part_upto(s, part, n) == prev);
        }
    }
}

/// Count of the member's ranked records among the first `n`.
pub open spec fn cnt_ranked_upto(s: Seq<Solution>, numeric: u64, n: int) -> int
    decreases n,
{
    if n <= 0 {
        0
    } else {
        cnt_ranked_upto(s, numeric, n - 1) + if ranked_match(s, numeric, n - 1) {
            1int
        } else {
            0int
        }
    }
}

/// The record at index `i` belongs to the member and carries a rank.
pub open spec fn ranked_match(s: Seq<Solution>, numeric: u64, i: int) -> bool {
    s[i].id.numeric == numeric && s[i].rank is Some
}

/// The rank a record carries (0 when it carries none; only applied to ranked
/// records).
pub open spec fn rec_rank(s: Seq<Solution>, i: int) -> u8 {
    match s[i].rank {
        Option::Some(r) => r,
        Option::None => 0,
    }
}

/// Instant and index of the chronologically last of the member's ranked
/// records among the first `n`, ties resolved towards the later arrival
/// (`(i64::MIN, -1)` when there is none).
pub open spec fn later_ranked(s: Seq<Solution>, numeric: u64, n: int) -> (i64, int)
    decreases n,
{
    if n <= 0 {
        (i64::MIN, -1)
    } else {
        let prev = later_ranked(s, numeric, n - 1);
        if ranked_match(s, numeric, n - 1) && s[n - 1].timestamp >= prev.0 {
            (s[n - 1].timestamp, n - 1)
        } else {
            prev
        }
    }
}

/// Instant and index of the chronologically first of the member's ranked
/// records among the first `n`, ties resolved towards the earlier arrival
/// (`(i64::MAX, -1)` when there is none).
pub open spec fn earlier_ranked(s: Seq<Solution>, numeric: u64, n: int) -> (i64, int)
    decreases n,
{
    if n <= 0 {
        (i64::MAX, -1)
    } else {
        let prev = earlier_ranked(s, numeric, n - 1);
        if ranked_match(s, numeric, n - 1) && s[n - 1].timestamp < prev.0 {
            (s[n - 1].timestamp, n - 1)
        } else {
            prev
        }
    }
}

pub proof fn lemma_ranked_bounds(s: Seq<Solution>, numeric: u64, n: int)
    requires
        wf_records(s),
        0 <= n <= s.len(),
    ensures
        cnt_ranked_upto(s, numeric, n) >= 0,
        cnt_ranked_upto(s, numeric, n) >= 1 ==> {
            let l = later_ranked(s, numeric, n);
            0 <= l.1 < n && #[trigger] ranked_match(s, numeric, l.1) && s[l.1].timestamp == l.0
        },
        cnt_ranked_upto(s, numeric, n) >= 1 ==> {
            let e = earlier_ranked(s, numeric, n);
            0 <= e.1 < n && #[trigger] ranked_match(s, numeric, e.1) && s[e.1].timestamp == e.0
        },
        cnt_ranked_upto(s, numeric, n) >= 1 ==> earlier_ranked(s, numeric, n).0 <= later_ranked(
            s,
            numeric,
            n,
        ).0,
        cnt_ranked_upto(s, numeric, n) == 1 ==> earlier_ranked(s, numeric, n).1 == later_ranked(
            s,
            numeric,
            n,
        ).1,
        cnt_ranked_upto(s, numeric, n) == 0 ==> later_ranked(s, numeric, n) == (i64::MIN, -1int)
            && earlier_ranked(s, numeric, n) == (i64::MAX, -1int),
    decreases n,
{
    if n > 0 {
        lemma_ranked_bounds(s, numeric, n - 1);
        if ranked_match(s, numeric, n - 1) && cnt_ranked_upto(s, numeric, n - 1) == 0 {
            assert(wf_solution(s[n - 1]));
            assert(later_ranked(s, numeric, n) == (s[n - 1].timestamp, n - 1));
            assert(earlier_ranked(s, numeric, n) == (s[n - 1].timestamp, n - 1));
        }
    }
}

/// The `(delta, rank)` pair the statistics computation derives for a member
/// with one or two ranked records.
///
/// With one record only, the member reached the other part's board outside
/// the top 100: a first-part-only record is extrapolated against the latest
/// observed second-part arrival, one second added, under the sentinel rank
/// 101; a second-part-only record is extrapolated against the latest
/// observed first-part arrival, one second subtracted, under the record's
/// own rank.  With two records the delta is exact and carries the later
/// record's rank.
pub open spec fn member_pair(s: Seq<Solution>, numeric: u64) -> (i64, u8) {
    let n = s.len() as int;
    let l = later_ranked(s, numeric, n);
    if cnt_ranked_upto(s, numeric, n) == 1 {
        if s[l.1].part == ProblemPart::FIRST {
            ((max_part_upto(s, ProblemPart::SECOND, n) - s[l.1].timestamp + 1) as i64, 101u8)
        } else {
            ((s[l.1].timestamp - max_part_upto(s, ProblemPart::FIRST, n) - 1) as i64, rec_rank(s, l.1))
        }
    } else {
        let e = earlier_ranked(s, numeric, n);
        ((l.0 - e.0) as i64, rec_rank(s, l.1))
    }
}

/// The `(delta, rank)` pairs the statistics computation reports: one per
/// member with one or two ranked records, restricted to ranks at most 100
/// (this deliberately drops the sentinel 101: a bound is never reported as a
/// top-100 statistic).
pub open spec fn spec_pairs(s: Seq<Solution>) -> Seq<(i64, u8)> {
    spec_members(s).filter(
        |m: crate::record::Identifier| 1 <= cnt_ranked_upto(s, m.numeric, s.len() as int) <= 2,
    ).map_values(|m: crate::record::Identifier| member_pair(s, m.numeric)).filter(
        |p: (i64, u8)| p.1 <= 100,
    )
}

/// Lexicographic order on `(delta, rank)` pairs.
pub open spec fn pair_le(a: (i64, u8), b: (i64, u8)) -> bool {
    a.0 < b.0 || (a.0 == b.0 && a.1 <= b.1)
}

/// The smallest pair of a non-empty prefix.
pub open spec fn pairs_min(ps: Seq<(i64, u8)>, n: int) -> (i64, u8)
    decreases n,
{
    if n <= 1 {
        ps[0]
    } else {
        let prev = pairs_min(ps, n - 1);
        if pair_le(prev, ps[n - 1]) {
            prev
        } else {
            ps[n - 1]
        }
    }
}

/// The largest pair of a non-empty prefix.
pub open spec fn pairs_max(ps: Seq<(i64, u8)>, n: int) -> (i64, u8)
    decreases n,
{
    if n <= 1 {
        ps[0]
    } else {
        let prev = pairs_max(ps, n - 1);
        if pair_le(ps[n - 1], prev) {
            prev
        } else {
            ps[n - 1]
        }
    }
}

/// Some member of the snapshot holds more than two ranked records.
pub open spec fn inconsistent_ranks(s: Seq<Solution>) -> bool {
    exists|k: int|
        0 <= k < spec_members(s).len() && cnt_ranked_upto(
            s,
            (#[trigger] spec_members(s)[k]).numeric,
            s.len() as int,
        ) > 2
}

impl ScrapedLeaderboard {
    /// An empty snapshot captured now.
    pub fn new() -> (r: ScrapedLeaderboard)
        ensures
            r.leaderboard@ == Seq::<Solution>::empty(),
            -TS_LIMIT < r.timestamp < TS_LIMIT,
    {
        ScrapedLeaderboard { timestamp: now_timestamp(), leaderboard: Leaderboard::new() }
    }

    /// Whether the snapshot holds exactly `n` records.
    pub fn is_count_equal_to(&self, n: usize) -> (r: bool)
        ensures
            r == (self.leaderboard@.len() == n),
    {
        self.leaderboard.len() == n
    }

    /// Every record of this (broad) snapshot whose member also appears in
    /// the private snapshot, reported under the private snapshot's identity.
    pub fn check_for_private_members(&self, private_leaderboard: &Leaderboard) -> (r: Vec<
        (crate::record::Identifier, ProblemPart),
    >)
        ensures
            r@ == crate::board::spec_heroes(self.leaderboard@, private_leaderboard@),
    {
        self.leaderboard.check_for_private_members(private_leaderboard)
    }

    /// Timing statistics for one challenge day, relative to the challenge's
    /// release instant (supplied by the caller, which knows the release
    /// schedule).
    ///
    /// Fails with `NoDataForDay` when the day lacks records for one of its
    /// parts, and with `InconsistentSnapshot` when a member holds more than
    /// two ranked records.
    pub fn statistics(&self, year: i32, day: u8, release_time: i64) -> (r: Result<
        LeaderboardStatistics,
        StatisticsError,
    >)
        requires
            wf_records(self.leaderboard@),
            -TS_LIMIT <= release_time <= TS_LIMIT,
        ensures
            r == Result::<LeaderboardStatistics, StatisticsError>::Err(
                StatisticsError::NoDataForDay,
            ) <==> (cnt_ydp_upto(
                self.leaderboard@,
                year,
                day,
                ProblemPart::FIRST,
                self.leaderboard@.len() as int,
            ) == 0 || cnt_ydp_upto(
                self.leaderboard@,
                year,
                day,
                ProblemPart::SECOND,
                self.leaderboard@.len() as int,
            ) == 0),
            r is Err ==> (r == Result::<LeaderboardStatistics, StatisticsError>::Err(
                StatisticsError::NoDataForDay,
            ) || r == Result::<LeaderboardStatistics, StatisticsError>::Err(
                StatisticsError::InconsistentSnapshot,
            )),
            r == Result::<LeaderboardStatistics, StatisticsError>::Err(
                StatisticsError::InconsistentSnapshot,
            ) <==> (cnt_ydp_upto(
                self.leaderboard@,
                year,
                day,
                ProblemPart::FIRST,
                self.leaderboard@.len() as int,
            ) > 0 && cnt_ydp_upto(
                self.leaderboard@,
                year,
                day,
                ProblemPart::SECOND,
                self.leaderboard@.len() as int,
            ) > 0 && inconsistent_ranks(self.leaderboard@)),
            r matches Ok(st) ==> {
                let s = self.leaderboard@;
                let n = s.len() as int;
                &&& st.p1_time_fast == Option::Some(
                    (min_ydp_upto(s, year, day, ProblemPart::FIRST, n) - release_time) as i64,
                )
                &&& st.p1_time_slow == Option::Some(
                    (max_ydp_upto(s, year, day, ProblemPart::FIRST, n) - release_time) as i64,
                )
                &&& st.p2_time_fast == Option::Some(
                    (min_ydp_upto(s, year, day, ProblemPart::SECOND, n) - release_time) as i64,
                )
                &&& st.p2_time_slow == Option::Some(
                    (max_ydp_upto(s, year, day, ProblemPart::SECOND, n) - release_time) as i64,
                )
                &&& spec_pairs(s).len() == 0 ==> st.delta_fast is None && st.delta_slow is None
                &&& spec_pairs(s).len() > 0 ==> st.delta_fast == Option::Some(
                    pairs_min(spec_pairs(s), spec_pairs(s).len() as int),
                ) && st.delta_slow == Option::Some(
                    pairs_max(spec_pairs(s), spec_pairs(s).len() as int),
                )
            },
    {
        let board = &self.leaderboard;
        let n = board.records.len();
        let ghost s = board@;

        let mut cnt_p1: usize = 0;
        let mut cnt_p2: usize = 0;
        let mut min_p1: i64 = i64::MAX;
        let mut max_p1: i64 = i64::MIN;
        let mut min_p2: i64 = i64::MAX;
        let mut max_p2: i64 = i64::MIN;
        let mut max_part1: i64 = i64::MIN;
        let mut max_part2: i64 = i64::MIN;
        let mut j: usize = 0;
        while j < n
            invariant
                0 <= j <= n == s.len(),
                s == board@,
                cnt_p1 == cnt_ydp_upto(s, year, day, ProblemPart::FIRST, j as int),
                cnt_p2 == cnt_ydp_upto(s, year, day, ProblemPart::SECOND, j as int),
                cnt_p1 <= j && cnt_p2 <= j,
                min_p1 == min_ydp_upto(s, year, day, ProblemPart::FIRST, j as int),
                max_p1 == max_ydp_upto(s, year, day, ProblemPart::FIRST, j as int),
                min_p2 == min_ydp_upto(s, year, day, ProblemPart::SECOND, j as int),
                max_p2 == max_ydp_upto(s, year, day, ProblemPart::SECOND, j as int),
                max_part1 == max_part_upto(s, ProblemPart::FIRST, j as int),
                max_part2 == max_part_upto(s, ProblemPart::SECOND, j as int),
            decreases n - j,
        {
            let e = &board.records[j];
            if e.year == year && e.day == day && e.part == ProblemPart::FIRST {
                cnt_p1 += 1;
                if e.timestamp < min_p1 {
                    min_p1 = e.timestamp;
                }
                if e.timestamp > max_p1 {
                    max_p1 = e.timestamp;
                }
            }
            if e.year == year && e.day == day && e.part == ProblemPart::SECOND {
                cnt_p2 += 1;
                if e.timestamp < min_p2 {
                    min_p2 = e.timestamp;
                }
                if e.timestamp > max_p2 {
                    max_p2 = e.timestamp;
                }
            }
            if e.part == ProblemPart::FIRST {
                if e.timestamp > max_part1 {
                    max_part1 = e.timestamp;
                }
            } else {
                if e.timestamp > max_part2 {
                    max_part2 = e.timestamp;
                }
            }
            j += 1;
        }
        if cnt_p1 == 0 || cnt_p2 == 0 {
            return Result::Err(StatisticsError::NoDataForDay);
        }

        proof {
            lemma_ydp_bounds(s, year, day, ProblemPart::FIRST, n as int);
            lemma_ydp_bounds(s, year, day, ProblemPart::SECOND, n as int);
            lemma_part_max(s, ProblemPart::FIRST, n as int);
            lemma_part_max(s, ProblemPart::SECOND, n as int);
            let i1 = choose|i: int|
                0 <= i < n && #[trigger] ydp_match(s, year, day, ProblemPart::FIRST, i)
                    && s[i].timestamp == min_ydp_upto(s, year, day, ProblemPart::FIRST, n as int);
            let i2 = choose|i: int|
                0 <= i < n && #[trigger] ydp_match(s, year, day, ProblemPart::FIRST, i)
                    && s[i].timestamp == max_ydp_upto(s, year, day, ProblemPart::FIRST, n as int);
            let i3 = choose|i: int|
                0 <= i < n && #[trigger] ydp_match(s, year, day, ProblemPart::SECOND, i)
                    && s[i].timestamp == min_ydp_upto(s, year, day, ProblemPart::SECOND, n as int);
            let i4 = choose|i: int|
                0 <= i < n && #[trigger] ydp_match(s, year, day, ProblemPart::SECOND, i)
                    && s[i].timestamp == max_ydp_upto(s, year, day, ProblemPart::SECOND, n as int);
            assert(wf_solution(s[i1]) && wf_solution(s[i2]) && wf_solution(s[i3]) && wf_solution(
                s[i4],
            ));
            assert(s[i1].part == ProblemPart::FIRST && s[i4].part == ProblemPart::SECOND);
            assert(max_part1 >= s[i1].timestamp && max_part2 >= s[i4].timestamp);
            let w1 = choose|i: int|
                0 <= i < n && (#[trigger] s[i]).part == ProblemPart::FIRST && s[i].timestamp
                    == max_part_upto(s, ProblemPart::FIRST, n as int);
            let w2 = choose|i: int|
                0 <= i < n && (#[trigger] s[i]).part == ProblemPart::SECOND && s[i].timestamp
                    == max_part_upto(s, ProblemPart::SECOND, n as int);
            assert(wf_solution(s[w1]) && wf_solution(s[w2]));
        }

        let members = board.distinct_members();
        let mut pairs: Vec<(i64, u8)> = Vec::new();
        let mut k: usize = 0;
        while k < members.len()
            invariant
                0 <= k <= members@.len(),
                members@ == spec_members(s),
                s == board@,
                s == self.leaderboard@,
                n == s.len(),
                wf_records(s),
                cnt_ydp_upto(s, year, day, ProblemPart::FIRST, n as int) > 0,
                cnt_ydp_upto(s, year, day, ProblemPart::SECOND, n as int) > 0,
                -TS_LIMIT <= max_part1 <= TS_LIMIT,
                -TS_LIMIT <= max_part2 <= TS_LIMIT,
                max_part1 == max_part_upto(s, ProblemPart::FIRST, n as int),
                max_part2 == max_part_upto(s, ProblemPart::SECOND, n as int),
                forall|k2: int|
                    0 <= k2 < k ==> cnt_ranked_upto(
                        s,
                        (#[trigger] members@[k2]).numeric,
                        n as int,
                    ) <= 2,
                pairs@ == members@.take(k as int).filter(
                    |m: crate::record::Identifier| 1 <= cnt_ranked_upto(s, m.numeric, n as int)
                        <= 2,
                ).map_values(|m: crate::record::Identifier| member_pair(s, m.numeric)).filter(
                    |p: (i64, u8)| p.1 <= 100,
                ),
            decreases members@.len() - k,
        {
            let u = members[k].numeric;
            let mut cnt: usize = 0;
            let mut later_ts: i64 = i64::MIN;
            let mut later_idx: usize = 0;
            let mut later_rank: u8 = 0;
            let mut earlier_ts: i64 = i64::MAX;
            let mut j2: usize = 0;
            while j2 < n
                invariant
                    0 <= j2 <= n == s.len(),
                    s == board@,
                    cnt == cnt_ranked_upto(s, u, j2 as int),
                    cnt <= j2,
                    later_ts == later_ranked(s, u, j2 as int).0,
                    cnt >= 1 ==> later_idx == later_ranked(s, u, j2 as int).1,
                    cnt >= 1 ==> later_idx < j2 && later_rank == rec_rank(s, later_idx as int),
                    earlier_ts == earlier_ranked(s, u, j2 as int).0,
                    cnt == 0 ==> later_ts == i64::MIN && earlier_ts == i64::MAX,
                decreases n - j2,
            {
                let ghost lr_prev = later_ranked(s, u, j2 as int);
                let ghost er_prev = earlier_ranked(s, u, j2 as int);
                let e = &board.records[j2];
                if e.id.numeric == u && e.rank.is_some() {
                    cnt += 1;
                    if e.timestamp >= later_ts {
                        later_ts = e.timestamp;
                        later_idx = j2;
                        later_rank = match e.rank {
                            Option::Some(rk) => rk,
                            Option::None => 0,
                        };
                    }
                    if e.timestamp < earlier_ts {
                        earlier_ts = e.timestamp;
                    }
                }
                proof {
                    assert(later_ranked(s, u, j2 + 1) == if ranked_match(s, u, j2 as int)
                        && s[j2 as int].timestamp >= lr_prev.0 {
                        (s[j2 as int].timestamp, j2 as int)
                    } else {
                        lr_prev
                    });
                    assert(earlier_ranked(s, u, j2 + 1) == if ranked_match(s, u, j2 as int)
                        && s[j2 as int].timestamp < er_prev.0 {
                        (s[j2 as int].timestamp, j2 as int)
                    } else {
                        er_prev
                    });
                }
                j2 += 1;
            }
            proof {
                lemma_ranked_bounds(s, u, n as int);
                assert(members@.take(k + 1) =~= members@.take(k as int).push(members@[k as int]));
                let fsel = |m: crate::record::Identifier| 1 <= cnt_ranked_upto(s, m.numeric, n as int)
                    <= 2;
                lemma_filter_push(members@.take(k as int), fsel, members@[k as int]);
                let fmap = |m: crate::record::Identifier| member_pair(s, m.numeric);
                let fl = members@.take(k as int).filter(fsel);
                assert(fl.push(members@[k as int]).map_values(fmap) =~= fl.map_values(fmap).push(
                    fmap(members@[k as int]),
                ));
                if 1 <= cnt <= 2 {
                    lemma_filter_push(
                        fl.map_values(fmap),
                        |p: (i64, u8)| p.1 <= 100,
                        fmap(members@[k as int]),
                    );
                }
            }
            if cnt > 2 {
                proof {
                    assert(cnt_ranked_upto(
                        s,
                        (#[trigger] spec_members(s)[k as int]).numeric,
                        s.len() as int,
                    ) > 2);
                    assert(inconsistent_ranks(s));
                }
                return Result::Err(StatisticsError::InconsistentSnapshot);
            }
            if cnt >= 1 {
                proof {
                    let l = later_ranked(s, u, n as int);
                    assert(wf_solution(s[l.1]));
                    if cnt >= 1 {
                        let e2 = earlier_ranked(s, u, n as int);
                        assert(wf_solution(s[e2.1]));
                    }
                }
                let pair: (i64, u8) = if cnt == 1 {
                    if matches!(board.records[later_idx].part, ProblemPart::FIRST) {
                        (max_part2 - later_ts + 1, 101)
                    } else {
                        (later_ts - max_part1 - 1, later_rank)
                    }
                } else {
                    (later_ts - earlier_ts, later_rank)
                };
                proof {
                    assert(pair == member_pair(s, u));
                }
                if pair.1 <= 100 {
                    pairs.push(pair);
                }
            }
            k += 1;
        }
        proof {
            assert(members@.take(members@.len() as int) =~= members@);
            assert(pairs@ == spec_pairs(s));
            assert(!inconsistent_ranks(s)) by {
                if inconsistent_ranks(s) {
                    let k2 = choose|k2: int|
                        0 <= k2 < spec_members(s).len() && cnt_ranked_upto(
                            s,
                            (#[trigger] spec_members(s)[k2]).numeric,
                            s.len() as int,
                        ) > 2;
                    assert(false);
                }
            }
        }

        let mut delta_fast: Option<(i64, u8)> = Option::None;
        let mut delta_slow: Option<(i64, u8)> = Option::None;
        let np = pairs.len();
        if np > 0 {
            let mut best: (i64, u8) = pairs[0];
            let mut worst: (i64, u8) = pairs[0];
            let mut k2: usize = 1;
            while k2 < np
                invariant
                    1 <= k2 <= np == pairs@.len(),
                    best == pairs_min(pairs@, k2 as int),
                    worst == pairs_max(pairs@, k2 as int),
                decreases np - k2,
            {
                let p = pairs[k2];
                let le_best = best.0 < p.0 || (best.0 == p.0 && best.1 <= p.1);
                if !le_best {
                    best = p;
                }
                let le_worst = p.0 < worst.0 || (p.0 == worst.0 && p.1 <= worst.1);
                if !le_worst {
                    worst = p;
                }
                k2 += 1;
            }
            delta_fast = Option::Some(best);
            delta_slow = Option::Some(worst);
        }

        Result::Ok(
            LeaderboardStatistics {
                p1_time_fast: Option::Some(min_p1 - release_time),
                p1_time_slow: Option::Some(max_p1 - release_time),
                p2_time_fast: Option::Some(min_p2 - release_time),
                p2_time_slow: Option::Some(max_p2 - release_time),
                delta_fast,
                delta_slow,
            },
        )
    }
}

/// The extrapolated delta for a member seen only on the first part's board
/// is a strict lower bound: it exceeds the gap between that record and the
/// latest observed second-part arrival, and it carries the sentinel rank 101.
pub proof fn lemma_extrapolation_bound(s: Seq<Solution>, numeric: u64)
    requires
        wf_records(s),
        cnt_ranked_upto(s, numeric, s.len() as int) == 1,
        s[later_ranked(s, numeric, s.len() as int).1].part == ProblemPart::FIRST,
        exists|i: int| 0 <= i < s.len() && (#[trigger] s[i]).part == ProblemPart::SECOND,
    ensures
        member_pair(s, numeric).1 == 101,
        member_pair(s, numeric).0 > max_part_upto(s, ProblemPart::SECOND, s.len() as int)
            - s[later_ranked(s, numeric, s.len() as int).1].timestamp,
{
    let n = s.len() as int;
    lemma_ranked_bounds(s, numeric, n);
    lemma_part_max(s, ProblemPart::SECOND, n);
    let l = later_ranked(s, numeric, n);
    assert(wf_solution(s[l.1]));
    let w = choose|i: int|
        0 <= i < n && (#[trigger] s[i]).part == ProblemPart::SECOND && s[i].timestamp
            == max_part_upto(s, ProblemPart::SECOND, n);
    assert(wf_solution(s[w]));
}

} // verus!

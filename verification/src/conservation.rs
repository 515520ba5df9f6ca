use vstd::prelude::*;

use crate::record::{distinct_keys, solve_key, ProblemPart, Solution};
use crate::standings::{
    cnt_earlier_upto, ids_contain, lemma_members_basic, n_members, spec_members, star_rank,
    star_score,
};

verus! {

/// Count of records of one `(day, part)` group among the first `n`.
pub open spec fn cnt_group_upto(s: Seq<Solution>, day: u8, part: ProblemPart, n: int) -> int
    decreases n,
{
    if n <= 0 {
        0
    } else {
        cnt_group_upto(s, day, part, n - 1) + if s[n - 1].day == day && s[n - 1].part == part {
            1int
        } else {
            0int
        }
    }
}

/// Count of records among the first `n` standing strictly later, in the same
/// group, than a solve at instant `ts` and arrival index `idx`.
pub open spec fn cnt_later_upto(
    s: Seq<Solution>,
    day: u8,
    part: ProblemPart,
    ts: i64,
    idx: int,
    n: int,
) -> int
    decreases n,
{
    if n <= 0 {
        0
    } else {
        cnt_later_upto(s, day, part, ts, idx, n - 1) + if s[n - 1].day == day && s[n - 1].part
            == part && (s[n - 1].timestamp > ts || (s[n - 1].timestamp == ts && n - 1 > idx)) {
            1int
        } else {
            0int
        }
    }
}

/// Sum, over the group records among the first `k`, of each record's
/// position computed against the first `world` records.
pub open spec fn sum_ranks(s: Seq<Solution>, day: u8, part: ProblemPart, k: int, world: int) -> int
    decreases k,
{
    if k <= 0 {
        0
    } else {
        sum_ranks(s, day, part, k - 1, world) + if s[k - 1].day == day && s[k - 1].part == part {
            cnt_earlier_upto(s, day, part, s[k - 1].timestamp, k - 1, world)
        } else {
            0
        }
    }
}

/// Sum of the points earned by the group records among the first `n`.
pub open spec fn points_awarded_upto(s: Seq<Solution>, day: u8, part: ProblemPart, n: int) -> int
    decreases n,
{
    if n <= 0 {
        0
    } else {
        points_awarded_upto(s, day, part, n - 1) + if s[n - 1].day == day && s[n - 1].part
            == part {
            star_score(s, n - 1)
        } else {
            0
        }
    }
}

/// All the points one challenge hands out.
pub open spec fn points_awarded(s: Seq<Solution>, day: u8, part: ProblemPart) -> int {
    points_awarded_upto(s, day, part, s.len() as int)
}

/// `n + (n-1) + ... + (n-k+1)`: the points a challenge with `k` solvers on a
/// board of `n` members should hand out.
pub open spec fn descending_sum(n: int, k: int) -> int
    decreases k,
{
    if k <= 0 {
        0
    } else {
        n + descending_sum(n - 1, k - 1)
    }
}

/// Among records below the arrival index, every group record is either
/// strictly earlier or strictly later than the solve at that index.
proof fn lemma_trichotomy(s: Seq<Solution>, day: u8, part: ProblemPart, ts: i64, idx: int, n: int)
    requires
        0 <= n <= idx,
    ensures
        cnt_earlier_upto(s, day, part, ts, idx, n) + cnt_later_upto(s, day, part, ts, idx, n)
            == cnt_group_upto(s, day, part, n),
    decreases n,
{
    if n > 0 {
        lemma_trichotomy(s, day, part, ts, idx, n - 1);
    }
}

/// Extending the world by one record raises the summed positions of the
/// first `k` records by the number of them that stand later than it.
proof fn lemma_world_step(s: Seq<Solution>, day: u8, part: ProblemPart, k: int, m: int)
    requires
        0 <= k <= m - 1,
        m <= s.len(),
    ensures
        sum_ranks(s, day, part, k, m) == sum_ranks(s, day, part, k, m - 1) + if s[m - 1].day == day
            && s[m - 1].part == part {
            cnt_later_upto(s, day, part, s[m - 1].timestamp, m - 1, k)
        } else {
            0
        },
    decreases k,
{
    if k > 0 {
        lemma_world_step(s, day, part, k - 1, m);
    }
}

/// Twice the sum of all group positions is `k * (k - 1)`: the positions of a
/// `k`-record group, computed against the records seen so far, are exactly
/// `0` through `k - 1`.
proof fn lemma_sum_ranks_world(s: Seq<Solution>, day: u8, part: ProblemPart, m: int)
    requires
        0 <= m <= s.len(),
    ensures
        2 * sum_ranks(s, day, part, m, m) == cnt_group_upto(s, day, part, m) * (cnt_group_upto(
            s,
            day,
            part,
            m,
        ) - 1),
        cnt_group_upto(s, day, part, m) >= 0,
    decreases m,
{
    if m > 0 {
        lemma_sum_ranks_world(s, day, part, m - 1);
        let g = cnt_group_upto(s, day, part, m - 1);
        lemma_world_step(s, day, part, m - 1, m);
        if s[m - 1].day == day && s[m - 1].part == part {
            let ts = s[m - 1].timestamp;
            lemma_trichotomy(s, day, part, ts, m - 1, m - 1);
            assert(cnt_earlier_upto(s, day, part, ts, m - 1, m) == cnt_earlier_upto(
                s,
                day,
                part,
                ts,
                m - 1,
                m - 1,
            ));
            assert(sum_ranks(s, day, part, m, m) == sum_ranks(s, day, part, m - 1, m - 1) + g);
            assert(g * (g - 1) + 2 * g == (g + 1) * ((g + 1) - 1)) by (nonlinear_arith);
        }
    }
}

/// A group record's position never reaches the group's size.
proof fn lemma_rank_lt_group(
    s: Seq<Solution>,
    day: u8,
    part: ProblemPart,
    ts: i64,
    idx: int,
    n: int,
)
    requires
        0 <= idx < s.len(),
        s[idx].day == day,
        s[idx].part == part,
        s[idx].timestamp == ts,
        0 <= n <= s.len(),
    ensures
        cnt_earlier_upto(s, day, part, ts, idx, n) <= cnt_group_upto(s, day, part, n) - if idx < n {
            1int
        } else {
            0int
        },
    decreases n,
{
    if n > 0 {
        lemma_rank_lt_group(s, day, part, ts, idx, n - 1);
    }
}

/// The numeric ids of the group records among the first `n`.
pub open spec fn group_nums(s: Seq<Solution>, day: u8, part: ProblemPart, n: int) -> Seq<u64>
    decreases n,
{
    if n <= 0 {
        Seq::empty()
    } else {
        let prev = group_nums(s, day, part, n - 1);
        if s[n - 1].day == day && s[n - 1].part == part {
            prev.push(s[n - 1].id.numeric)
        } else {
            prev
        }
    }
}

/// Some record among the first `n` is a group record of this member.
pub open spec fn solved_in_group(s: Seq<Solution>, day: u8, part: ProblemPart, n: int, u: u64) -> bool {
    exists|i: int|
        0 <= i < n && (#[trigger] s[i]).day == day && s[i].part == part && s[i].id.numeric == u
}

proof fn lemma_group_nums(s: Seq<Solution>, day: u8, part: ProblemPart, n: int)
    requires
        distinct_keys(s),
        0 <= n <= s.len(),
    ensures
        group_nums(s, day, part, n).len() == cnt_group_upto(s, day, part, n),
        group_nums(s, day, part, n).no_duplicates(),
        forall|j: int|
            0 <= j < group_nums(s, day, part, n).len() ==> solved_in_group(
                s,
                day,
                part,
                n,
                #[trigger] group_nums(s, day, part, n)[j],
            ),
    decreases n,
{
    if n <= 0 {
        assert(group_nums(s, day, part, n) =~= Seq::<u64>::empty());
        assert(cnt_group_upto(s, day, part, n) == 0);
    }
    if n > 0 {
        lemma_group_nums(s, day, part, n - 1);
        let prev = group_nums(s, day, part, n - 1);
        assert forall|j: int| 0 <= j < group_nums(s, day, part, n).len() implies solved_in_group(
            s,
            day,
            part,
            n,
            #[trigger] group_nums(s, day, part, n)[j],
        ) by {
            if j < prev.len() {
                assert(group_nums(s, day, part, n)[j] == prev[j]);
                assert(solved_in_group(s, day, part, n - 1, prev[j]));
                let i = choose|i: int|
                    0 <= i < n - 1 && (#[trigger] s[i]).day == day && s[i].part == part
                        && s[i].id.numeric == prev[j];
                assert(0 <= i < n && s[i].day == day && s[i].part == part && s[i].id.numeric
                    == group_nums(s, day, part, n)[j]);
            } else {
                assert(s[n - 1].day == day && s[n - 1].part == part && s[n - 1].id.numeric
                    == group_nums(s, day, part, n)[j]);
            }
        }
        if s[n - 1].day == day && s[n - 1].part == part {
            assert(!prev.contains(s[n - 1].id.numeric)) by {
                if prev.contains(s[n - 1].id.numeric) {
                    let j = choose|j: int| 0 <= j < prev.len() && prev[j] == s[n - 1].id.numeric;
                    assert(solved_in_group(s, day, part, n - 1, prev[j]));
                    let i = choose|i: int|
                        0 <= i < n - 1 && (#[trigger] s[i]).day == day && s[i].part == part
                            && s[i].id.numeric == prev[j];
                    assert(solve_key(s[i]) == solve_key(s[n - 1]));
                    assert(false);
                }
            }
            assert(group_nums(s, day, part, n).no_duplicates()) by {
                let cur = group_nums(s, day, part, n);
                assert forall|j1: int, j2: int| 0 <= j1 < j2 < cur.len() implies cur[j1]
                    != cur[j2] by {
                    if j2 < cur.len() - 1 {
                        assert(prev[j1] != prev[j2]);
                    } else {
                        assert(cur[j1] == prev[j1]);
                        if cur[j1] == s[n - 1].id.numeric {
                            assert(prev.contains(prev[j1]));
                            assert(false);
                        }
                    }
                }
            }
        }
    }
}

/// No challenge has more solvers than the snapshot has members.
proof fn lemma_group_le_members(s: Seq<Solution>, day: u8, part: ProblemPart)
    requires
        distinct_keys(s),
    ensures
        cnt_group_upto(s, day, part, s.len() as int) <= n_members(s),
{
    broadcast use vstd::seq_lib::seq_to_set_is_finite;

    let n = s.len() as int;
    lemma_group_nums(s, day, part, n);
    lemma_members_basic(s);
    let nums = group_nums(s, day, part, n);
    let mem_nums = spec_members(s).map_values(|m: crate::record::Identifier| m.numeric);
    assert(mem_nums.no_duplicates()) by {
        assert forall|j1: int, j2: int| 0 <= j1 < j2 < mem_nums.len() implies mem_nums[j1]
            != mem_nums[j2] by {
            assert(spec_members(s)[j1].numeric != spec_members(s)[j2].numeric);
        }
    }
    nums.unique_seq_to_set();
    mem_nums.unique_seq_to_set();
    assert(nums.to_set().subset_of(mem_nums.to_set())) by {
        assert forall|u: u64| nums.to_set().contains(u) implies mem_nums.to_set().contains(u) by {
            assert(nums.contains(u));
            let j = choose|j: int| 0 <= j < nums.len() && nums[j] == u;
            assert(solved_in_group(s, day, part, n, nums[j]));
            let i = choose|i: int|
                0 <= i < n && (#[trigger] s[i]).day == day && s[i].part == part && s[i].id.numeric
                    == nums[j];
            assert(crate::record::has_member(s, u));
            assert(ids_contain(spec_members(s), u));
            let k = choose|k: int|
                0 <= k < spec_members(s).len() && (#[trigger] spec_members(s)[k]).numeric == u;
            assert(mem_nums[k] == u);
            assert(mem_nums.contains(u));
        }
    }
    vstd::set_lib::lemma_len_subset(nums.to_set(), mem_nums.to_set());
}

/// Points in terms of summed positions: every group record earns the member
/// count minus its position.
proof fn lemma_points_linear(s: Seq<Solution>, day: u8, part: ProblemPart, m: int)
    requires
        distinct_keys(s),
        0 <= m <= s.len(),
    ensures
        points_awarded_upto(s, day, part, m) == cnt_group_upto(s, day, part, m) * n_members(s)
            - sum_ranks(s, day, part, m, s.len() as int),
    decreases m,
{
    let n = s.len() as int;
    let nm = n_members(s);
    if m > 0 {
        lemma_points_linear(s, day, part, m - 1);
        if s[m - 1].day == day && s[m - 1].part == part {
            let ts = s[m - 1].timestamp;
            lemma_rank_lt_group(s, day, part, ts, m - 1, n);
            lemma_group_le_members(s, day, part);
            assert(star_rank(s, m - 1) == cnt_earlier_upto(s, day, part, ts, m - 1, n));
            assert(star_rank(s, m - 1) < nm);
            assert(star_score(s, m - 1) == nm - star_rank(s, m - 1));
            let g = cnt_group_upto(s, day, part, m - 1);
            assert((g + 1) * nm == g * nm + nm) by (nonlinear_arith);
        }
    }
}

proof fn lemma_descending_sum(n: int, k: int)
    requires
        k >= 0,
    ensures
        2 * descending_sum(n, k) == k * (2 * n - k + 1),
    decreases k,
{
    if k > 0 {
        lemma_descending_sum(n - 1, k - 1);
        assert(descending_sum(n, k) == n + descending_sum(n - 1, k - 1));
        assert(2 * descending_sum(n, k) == 2 * n + (k - 1) * (2 * (n - 1) - (k - 1) + 1));
        assert(2 * n + (k - 1) * (2 * (n - 1) - (k - 1) + 1) == k * (2 * n - k + 1))
            by (nonlinear_arith);
        assert(2 * descending_sum(n, k) == k * (2 * n - k + 1));
    } else {
        assert(k == 0);
        assert(descending_sum(n, k) == 0);
        assert(2 * descending_sum(n, k) == k * (2 * n - k + 1));
    }
}

/// Score conservation: a challenge with `k` solvers on a board of `n`
/// members hands out exactly `n + (n-1) + ... + (n-k+1)` points, with no
/// double counting.
pub proof fn lemma_score_conservation(s: Seq<Solution>, day: u8, part: ProblemPart)
    requires
        distinct_keys(s),
    ensures
        points_awarded(s, day, part) == descending_sum(
            n_members(s),
            cnt_group_upto(s, day, part, s.len() as int),
        ),
{
    let n = s.len() as int;
    let nm = n_members(s);
    let k = cnt_group_upto(s, day, part, n);
    lemma_points_linear(s, day, part, n);
    lemma_sum_ranks_world(s, day, part, n);
    lemma_descending_sum(nm, k);
    assert(2 * (k * nm) - k * (k - 1) == k * (2 * nm - k + 1)) by (nonlinear_arith);
}

} // verus!

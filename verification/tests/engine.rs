use aoc_leaderboard::board::Leaderboard;
use aoc_leaderboard::record::{Identifier, ProblemPart, Solution};
use aoc_leaderboard::stats::{ScrapedLeaderboard, StatisticsError};

fn solve(
    numeric: u64,
    name: &str,
    year: i32,
    day: u8,
    part: ProblemPart,
    ts: i64,
    rank: Option<u8>,
) -> Solution {
    Solution {
        timestamp: ts,
        year,
        day,
        part,
        id: Identifier { name: name.to_string(), numeric, global_score: 0 },
        rank,
    }
}

/// Member A solves day 5 part 1 at T and part 2 at T+10min; member B solves
/// only part 1 at T+1min.
fn two_member_board() -> Leaderboard {
    let t: i64 = 1_000_000;
    let mut board = Leaderboard::new();
    board.push(solve(1, "A", 2022, 5, ProblemPart::FIRST, t, Some(1)));
    board.push(solve(1, "A", 2022, 5, ProblemPart::SECOND, t + 600, Some(1)));
    board.push(solve(2, "B", 2022, 5, ProblemPart::FIRST, t + 60, Some(2)));
    board
}

#[test]
fn score_standings_scenario() {
    let board = two_member_board();
    // Part 1: A first (2 points), B second (1 point); part 2: A first (2).
    let standings = board.standings_by_local_score();
    assert_eq!(standings, vec![("A".to_string(), 4), ("B".to_string(), 1)]);
}

#[test]
fn day_standings_scenario() {
    let board = two_member_board();
    let standings = board.standings_by_local_score_for_day(5);
    assert_eq!(standings, vec![("A".to_string(), 4), ("B".to_string(), 1)]);
    // A day without records has empty standings.
    assert_eq!(board.standings_by_local_score_for_day(6), vec![]);
}

#[test]
fn delta_standings_scenario() {
    let board = two_member_board();
    // Only A completed both parts of day 5; the gap is ten minutes.
    let standings = board.standings_by_delta_for_day(5);
    assert_eq!(standings, vec![("A".to_string(), 600)]);
    assert_eq!(board.standings_by_delta_for_day(6), vec![]);
}

#[test]
fn scores_are_conserved() {
    // Day 5 part 1 has two solvers on a two-member board: 2 + 1 points.
    // Part 2 has one solver: 2 points.  Together: 5 points handed out.
    let board = two_member_board();
    let total: u64 = board
        .standings_by_local_score()
        .iter()
        .map(|(_, score)| *score)
        .sum();
    assert_eq!(total, 5);
}

#[test]
fn diff_against_self_is_empty() {
    let board = two_member_board();
    assert!(board.compute_diffs(&board).is_empty());
}

#[test]
fn diff_reports_new_solves_both_ways() {
    let mut a = Leaderboard::new();
    let r1 = solve(1, "A", 2022, 1, ProblemPart::FIRST, 100, Some(1));
    let r2 = solve(2, "B", 2022, 1, ProblemPart::FIRST, 200, Some(2));
    let r3 = solve(2, "B", 2022, 1, ProblemPart::SECOND, 300, Some(1));
    a.push(r1.clone());
    a.push(r2.clone());
    let mut b = Leaderboard::new();
    b.push(r2.clone());
    b.push(r3.clone());
    assert_eq!(a.compute_diffs(&b), vec![r1]);
    assert_eq!(b.compute_diffs(&a), vec![r3]);
}

#[test]
fn star_standings_tie_break() {
    let mut board = Leaderboard::new();
    // X and Y both hold two stars; Y earned its last star earlier and must
    // stand first.  Z holds one star.
    board.push(solve(1, "X", 2022, 1, ProblemPart::FIRST, 100, Some(1)));
    board.push(solve(1, "X", 2022, 1, ProblemPart::SECOND, 2000, Some(1)));
    board.push(solve(2, "Y", 2022, 1, ProblemPart::FIRST, 200, Some(2)));
    board.push(solve(2, "Y", 2022, 2, ProblemPart::FIRST, 1500, Some(2)));
    board.push(solve(3, "Z", 2022, 1, ProblemPart::FIRST, 50, Some(3)));
    let standings = board.standings_by_number_of_stars();
    assert_eq!(
        standings,
        vec![
            ("Y".to_string(), 2),
            ("X".to_string(), 2),
            ("Z".to_string(), 1),
        ]
    );
}

#[test]
fn global_score_standings_filter_positive() {
    let mut board = Leaderboard::new();
    let mut hero = solve(1, "hero", 2022, 1, ProblemPart::FIRST, 100, Some(1));
    hero.id.global_score = 25;
    board.push(hero);
    board.push(solve(2, "mortal", 2022, 1, ProblemPart::SECOND, 200, Some(1)));
    let standings = board.standings_by_global_score();
    assert_eq!(standings, vec![("hero".to_string(), 25)]);
}

#[test]
fn members_and_lookup() {
    let board = two_member_board();
    let mut ids = board.members_ids();
    ids.sort();
    assert_eq!(ids, vec![1, 2]);
    let m = board.get_member_by_id(2).expect("member");
    assert_eq!(m.name, "B");
    assert!(board.get_member_by_id(3).is_none());
}

#[test]
fn per_challenge_standings_order_by_time() {
    let board = two_member_board();
    let per_challenge = board.standings_per_challenge();
    assert_eq!(per_challenge.len(), 2);
    let (key, solvers) = &per_challenge[0];
    assert_eq!(*key, (5, ProblemPart::FIRST));
    let names: Vec<&str> = solvers.iter().map(|m| m.name.as_str()).collect();
    assert_eq!(names, vec!["A", "B"]);
    let (key2, solvers2) = &per_challenge[1];
    assert_eq!(*key2, (5, ProblemPart::SECOND));
    assert_eq!(solvers2.len(), 1);
    assert_eq!(solvers2[0].name, "A");
}

#[test]
fn hero_check_uses_private_identity() {
    let mut broad = Leaderboard::new();
    broad.push(solve(7, "global-name", 2022, 1, ProblemPart::FIRST, 100, Some(1)));
    broad.push(solve(8, "stranger", 2022, 1, ProblemPart::FIRST, 150, Some(2)));
    broad.push(solve(7, "global-name", 2022, 1, ProblemPart::SECOND, 300, Some(1)));
    let mut private = Leaderboard::new();
    private.push(solve(7, "private-name", 2022, 3, ProblemPart::FIRST, 999, Some(1)));
    let heroes = scraped(broad).check_for_private_members(&private);
    assert_eq!(heroes.len(), 2);
    assert_eq!(heroes[0].0.name, "private-name");
    assert_eq!(heroes[0].1, ProblemPart::FIRST);
    assert_eq!(heroes[1].0.name, "private-name");
    assert_eq!(heroes[1].1, ProblemPart::SECOND);
}

fn scraped(board: Leaderboard) -> ScrapedLeaderboard {
    ScrapedLeaderboard { timestamp: 0, leaderboard: board }
}

#[test]
fn statistics_exact_and_extrapolated() {
    let mut board = Leaderboard::new();
    board.push(solve(1, "m1", 2022, 1, ProblemPart::FIRST, 100, Some(1)));
    board.push(solve(2, "m2", 2022, 1, ProblemPart::FIRST, 200, Some(2)));
    board.push(solve(1, "m1", 2022, 1, ProblemPart::SECOND, 400, Some(1)));
    let st = scraped(board).statistics(2022, 1, 0).expect("statistics");
    assert_eq!(st.p1_time_fast, Some(100));
    assert_eq!(st.p1_time_slow, Some(200));
    assert_eq!(st.p2_time_fast, Some(400));
    assert_eq!(st.p2_time_slow, Some(400));
    // m1 has both parts: delta 300, rank of the later record.  m2 is
    // part-1-only: its extrapolated pair carries the sentinel rank 101 and
    // is excluded from the top-100 statistics.
    assert_eq!(st.delta_fast, Some((300, 1)));
    assert_eq!(st.delta_slow, Some((300, 1)));
}

#[test]
fn statistics_part2_only_extrapolation() {
    let mut board = Leaderboard::new();
    board.push(solve(1, "m1", 2022, 1, ProblemPart::FIRST, 100, Some(1)));
    board.push(solve(2, "m2", 2022, 1, ProblemPart::SECOND, 500, Some(1)));
    let st = scraped(board).statistics(2022, 1, 0).expect("statistics");
    // m1 is part-1-only: sentinel 101, excluded.  m2 is part-2-only: its
    // delta is bounded using the latest part-1 arrival, minus one second.
    assert_eq!(st.delta_fast, Some((399, 1)));
    assert_eq!(st.delta_slow, Some((399, 1)));
}

#[test]
fn statistics_need_both_parts() {
    let mut board = Leaderboard::new();
    board.push(solve(1, "m1", 2022, 1, ProblemPart::FIRST, 100, Some(1)));
    let r = scraped(board).statistics(2022, 1, 0);
    assert_eq!(r.unwrap_err(), StatisticsError::NoDataForDay);
}

#[test]
fn statistics_reject_three_ranked_records() {
    let mut board = Leaderboard::new();
    board.push(solve(1, "m1", 2022, 1, ProblemPart::FIRST, 100, Some(1)));
    board.push(solve(1, "m1", 2022, 1, ProblemPart::SECOND, 200, Some(1)));
    board.push(solve(1, "m1", 2022, 2, ProblemPart::FIRST, 300, Some(2)));
    let r = scraped(board).statistics(2022, 1, 0);
    assert_eq!(r.unwrap_err(), StatisticsError::InconsistentSnapshot);
}

#[test]
fn snapshot_count_check() {
    let snapshot = scraped(two_member_board());
    assert!(snapshot.is_count_equal_to(3));
    assert!(!snapshot.is_count_equal_to(2));
}

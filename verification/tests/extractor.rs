use aoc_leaderboard::extract::{HtmlRow, NameNode};
use aoc_leaderboard::record::{ProblemPart, Solution};
use aoc_leaderboard::textutil::parse_u64;

fn full_row() -> HtmlRow {
    HtmlRow {
        user_id: Some("42".to_string()),
        names: vec![NameNode::Text("bob".to_string())],
        rank_text: Some("5) some trailing text".to_string()),
        time_texts: vec!["Dec 25  00:12:01".to_string()],
    }
}

#[test]
fn parse_u64_accepts_plain_digits() {
    assert_eq!(parse_u64("42"), Some(42));
    assert_eq!(parse_u64("0"), Some(0));
    assert_eq!(parse_u64("007"), Some(7));
}

#[test]
fn parse_u64_accepts_leading_plus() {
    assert_eq!(parse_u64("+7"), Some(7));
}

#[test]
fn parse_u64_rejects_bad_input() {
    assert_eq!(parse_u64(""), None);
    assert_eq!(parse_u64("+"), None);
    assert_eq!(parse_u64(" 42"), None);
    assert_eq!(parse_u64("4x2"), None);
    assert_eq!(parse_u64("-3"), None);
    assert_eq!(parse_u64("99999999999999999999999"), None);
    assert_eq!(parse_u64("18446744073709551615"), Some(u64::MAX));
    assert_eq!(parse_u64("18446744073709551616"), None);
}

#[test]
fn extracts_complete_row() {
    let row = full_row();
    let sol = Solution::from_html(&row, 2022, 25, ProblemPart::FIRST).expect("record");
    assert_eq!(sol.id.numeric, 42);
    assert_eq!(sol.id.name, "bob");
    assert_eq!(sol.id.global_score, 0);
    assert_eq!(sol.rank, Some(5));
    assert_eq!(sol.year, 2022);
    assert_eq!(sol.day, 25);
    assert_eq!(sol.part, ProblemPart::FIRST);
    // 2022-12-25 00:12:01 UTC as read, plus the six-hour normalization.
    assert_eq!(sol.timestamp, 1671927121 + 6 * 3600);
}

#[test]
fn missing_rank_marker_drops_row() {
    let mut row = full_row();
    row.rank_text = None;
    assert!(Solution::from_html(&row, 2022, 25, ProblemPart::FIRST).is_none());
}

#[test]
fn missing_id_drops_row() {
    let mut row = full_row();
    row.user_id = None;
    assert!(Solution::from_html(&row, 2022, 25, ProblemPart::FIRST).is_none());
}

#[test]
fn unparsable_time_drops_row() {
    let mut row = full_row();
    row.time_texts = vec!["not a time".to_string()];
    assert!(Solution::from_html(&row, 2022, 25, ProblemPart::FIRST).is_none());
}

#[test]
fn rank_out_of_range_drops_row() {
    let mut row = full_row();
    row.rank_text = Some("150) text".to_string());
    assert!(Solution::from_html(&row, 2022, 25, ProblemPart::FIRST).is_none());
    row.rank_text = Some("0) text".to_string());
    assert!(Solution::from_html(&row, 2022, 25, ProblemPart::FIRST).is_none());
    row.rank_text = Some("abc".to_string());
    assert!(Solution::from_html(&row, 2022, 25, ProblemPart::FIRST).is_none());
}

#[test]
fn parenthesized_link_text_is_discarded() {
    let mut row = full_row();
    row.names = vec![
        NameNode::Text("placeholder".to_string()),
        NameNode::Link("(AoC++)".to_string()),
    ];
    let sol = Solution::from_html(&row, 2022, 25, ProblemPart::FIRST).expect("record");
    assert_eq!(sol.id.name, "placeholder");
}

#[test]
fn later_candidate_overrides_earlier() {
    let mut row = full_row();
    row.names = vec![
        NameNode::Text("early".to_string()),
        NameNode::Link("late".to_string()),
    ];
    let sol = Solution::from_html(&row, 2022, 25, ProblemPart::SECOND).expect("record");
    assert_eq!(sol.id.name, "late");
}

#[test]
fn anonymous_name_is_synthesized() {
    let mut row = full_row();
    row.names = vec![NameNode::Link("(Sponsor)".to_string())];
    let sol = Solution::from_html(&row, 2022, 25, ProblemPart::FIRST).expect("record");
    assert_eq!(sol.id.name, "anonymous user #42");
}

#[test]
fn names_are_trimmed() {
    let mut row = full_row();
    row.names = vec![NameNode::Text("  bob the solver  ".to_string())];
    let sol = Solution::from_html(&row, 2022, 25, ProblemPart::FIRST).expect("record");
    assert_eq!(sol.id.name, "bob the solver");
}

#[test]
fn last_parsed_time_wins() {
    let mut row = full_row();
    row.time_texts = vec![
        "Dec 25  00:12:01".to_string(),
        "garbage".to_string(),
        "Dec 25  01:00:00".to_string(),
    ];
    let sol = Solution::from_html(&row, 2022, 25, ProblemPart::FIRST).expect("record");
    assert_eq!(sol.timestamp, 1671930000 + 6 * 3600);
}

#[test]
fn problem_part_from_number() {
    assert_eq!(ProblemPart::from(1), ProblemPart::FIRST);
    assert_eq!(ProblemPart::from(2), ProblemPart::SECOND);
    assert_eq!(ProblemPart::FIRST.label(), "1");
    assert_eq!(ProblemPart::SECOND.label(), "2");
}

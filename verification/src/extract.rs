use vstd::prelude::*;

use crate::record::{wf_solution, Identifier, ProblemPart, Solution, TS_LIMIT};
use crate::textutil::{parse_u64, parse_u64_spec, spec_u64_digits, trim, trim_of, u64_to_string};
use crate::timeparse::{parse_leaderboard_time, parsed_time};

verus! {

/// One child node of a leaderboard row that may carry the member's name:
/// either a plain text node, or a link element reduced to its last nested
/// text.
#[derive(Debug)]
pub enum NameNode {
    Text(String),
    Link(String),
}

/// A scraped leaderboard row, reduced to the plain data the extractor reads:
/// the member-id attribute, the name-bearing child nodes in document order,
/// the text of the rank marker, and the texts of the time marker.
#[derive(Debug)]
pub struct HtmlRow {
    pub user_id: Option<String>,
    pub names: Vec<NameNode>,
    pub rank_text: Option<String>,
    pub time_texts: Vec<String>,
}

/// The name a single node offers: its trimmed text, except that an empty
/// text, or a link text wrapped in parentheses (a badge, not a name), offers
/// nothing.
pub open spec fn candidate(nn: NameNode) -> Option<Seq<char>> {
    match nn {
        NameNode::Text(t) => {
            let tt = trim_of(t@);
            if tt.len() > 0 {
                Option::Some(tt)
            } else {
                Option::None
            }
        },
        NameNode::Link(t) => {
            let tt = trim_of(t@);
            if tt.len() > 0 && tt[0] != '(' && tt[tt.len() - 1] != ')' {
                Option::Some(tt)
            } else {
                Option::None
            }
        },
    }
}

/// The last node that offers a name wins: later nodes override earlier
/// placeholders.
pub open spec fn last_candidate(ns: Seq<NameNode>) -> Option<Seq<char>>
    decreases ns.len(),
{
    if ns.len() == 0 {
        Option::None
    } else {
        match candidate(ns.last()) {
            Option::Some(c) => Option::Some(c),
            Option::None => last_candidate(ns.drop_last()),
        }
    }
}

/// The resolved display name: the winning candidate, or the anonymous form
/// derived from the numeric id when no node offers a name.
pub open spec fn resolved_name(ns: Seq<NameNode>, id: u64) -> Seq<char> {
    match last_candidate(ns) {
        Option::Some(c) => c,
        Option::None => "anonymous user #"@ + spec_u64_digits(id),
    }
}

/// Index of the first closing parenthesis, or the length when there is none.
pub open spec fn first_rparen(t: Seq<char>) -> int
    decreases t.len(),
{
    if t.len() == 0 {
        0
    } else if t[0] == ')' {
        0
    } else {
        1 + first_rparen(t.subrange(1, t.len() as int))
    }
}

pub proof fn lemma_first_rparen(t: Seq<char>)
    ensures
        0 <= first_rparen(t) <= t.len(),
        first_rparen(t) < t.len() ==> t[first_rparen(t)] == ')',
        forall|j: int| 0 <= j < first_rparen(t) ==> t[j] != ')',
    decreases t.len(),
{
    if t.len() > 0 && t[0] != ')' {
        let rest = t.subrange(1, t.len() as int);
        lemma_first_rparen(rest);
        assert forall|j: int| 0 <= j < first_rparen(t) implies t[j] != ')' by {
            if j > 0 {
                assert(rest[j - 1] == t[j]);
            }
        }
    }
}

/// The rank read from a rank-marker text: the part before the first closing
/// parenthesis, trimmed, parsed as an integer between 1 and 100.
pub open spec fn rank_of_text(t: Seq<char>) -> Option<u8> {
    let pfx = t.take(first_rparen(t));
    match parse_u64_spec(trim_of(pfx)) {
        Option::Some(v) => if 1 <= v <= 100 {
            Option::Some(v as u8)
        } else {
            Option::None
        },
        Option::None => Option::None,
    }
}

/// The rank of a row, when its rank marker is present and parses.
pub open spec fn row_rank(row: HtmlRow) -> Option<u8> {
    match row.rank_text {
        Option::Some(t) => rank_of_text(t@),
        Option::None => Option::None,
    }
}

/// The member id of a row, when its id attribute is present and parses.
pub open spec fn row_id(row: HtmlRow) -> Option<u64> {
    match row.user_id {
        Option::Some(s) => parse_u64_spec(s@),
        Option::None => Option::None,
    }
}

/// The last time-marker text that parses, as an instant.
pub open spec fn last_parsed_time(ts: Seq<String>, year: i32) -> Option<i64>
    decreases ts.len(),
{
    if ts.len() == 0 {
        Option::None
    } else {
        match parsed_time(year, ts.last()@) {
            Option::Some(v) => Option::Some(v),
            Option::None => last_parsed_time(ts.drop_last(), year),
        }
    }
}

/// The completion instant of a row, when some time-marker text parses.
pub open spec fn row_time(row: HtmlRow, year: i32) -> Option<i64> {
    last_parsed_time(row.time_texts@, year)
}

impl Solution {
    /// Extract one solve record from a scraped row.  Produces a record only
    /// when the member id, the rank and the completion instant all resolve;
    /// the name always resolves, falling back to the anonymous form.  The
    /// parsed instant is shifted by six hours to normalize the provider's
    /// display timezone to the release timezone.
    pub fn from_html(row: &HtmlRow, year: i32, day: u8, part: ProblemPart) -> (r: Option<Solution>)
        requires
            1 <= day <= 25,
        ensures
            r is Some <==> (row_id(*row) is Some && row_rank(*row) is Some && row_time(*row, year)
                is Some),
            r matches Some(sol) ==> {
                &&& row_id(*row) == Option::Some(sol.id.numeric)
                &&& row_rank(*row) == sol.rank
                &&& sol.rank is Some
                &&& row_time(*row, year) matches Option::Some(v) && sol.timestamp == v + 21600
                &&& sol.id.name@ == resolved_name(row.names@, sol.id.numeric)
                &&& sol.id.global_score == 0
                &&& sol.year == year
                &&& sol.day == day
                &&& sol.part == part
                &&& wf_solution(sol)
            },
    {
        let id: Option<u64> = match &row.user_id {
            Option::Some(sid) => parse_u64(sid.as_str()),
            Option::None => Option::None,
        };

        let rank: Option<u8> = match &row.rank_text {
            Option::Some(t) => {
                let tlen = t.as_str().unicode_len();
                let mut cut: usize = 0;
                let mut found = false;
                let mut j: usize = 0;
                while j < tlen
                    invariant
                        0 <= j <= tlen == t@.len(),
                        !found ==> forall|j2: int| 0 <= j2 < j ==> t@[j2] != ')',
                        found ==> 0 <= cut < j && t@[cut as int] == ')' && forall|j2: int|
                            0 <= j2 < cut ==> t@[j2] != ')',
                    decreases tlen - j,
                {
                    if !found && t.as_str().get_char(j) == ')' {
                        cut = j;
                        found = true;
                    }
                    j += 1;
                }
                let end: usize = if found {
                    cut
                } else {
                    tlen
                };
                proof {
                    lemma_first_rparen(t@);
                    if found {
                        assert(first_rparen(t@) >= cut);
                        assert(first_rparen(t@) <= cut);
                    }
                }
                let pfx = t.as_str().substring_char(0, end);
                proof {
                    assert(pfx@ =~= t@.take(first_rparen(t@)));
                }
                let trimmed = trim(pfx);
                match parse_u64(trimmed.as_str()) {
                    Option::Some(v) => if 1 <= v && v <= 100 {
                        Option::Some(v as u8)
                    } else {
                        Option::None
                    },
                    Option::None => Option::None,
                }
            },
            Option::None => Option::None,
        };

        let mut ts_opt: Option<i64> = Option::None;
        let mut k: usize = 0;
        while k < row.time_texts.len()
            invariant
                0 <= k <= row.time_texts@.len(),
                ts_opt == last_parsed_time(row.time_texts@.take(k as int), year),
                ts_opt matches Option::Some(v) ==> -crate::timeparse::CHRONO_LIMIT < v
                    < crate::timeparse::CHRONO_LIMIT,
            decreases row.time_texts@.len() - k,
        {
            let ghost prev = ts_opt;
            match parse_leaderboard_time(year, row.time_texts[k].as_str()) {
                Option::Some(v) => {
                    ts_opt = Option::Some(v);
                },
                Option::None => {
                },
            }
            proof {
                let taken = row.time_texts@.take(k + 1);
                assert(taken.drop_last() =~= row.time_texts@.take(k as int));
                assert(taken.last() == row.time_texts@[k as int]);
            }
            k += 1;
        }
        proof {
            assert(row.time_texts@.take(row.time_texts@.len() as int) =~= row.time_texts@);
        }

        let (idv, rankv, tsv) = match (id, rank, ts_opt) {
            (Option::Some(a), Option::Some(b), Option::Some(c)) => (a, b, c),
            _ => {
                return Option::None;
            },
        };

        let mut best: Option<String> = Option::None;
        let mut i: usize = 0;
        while i < row.names.len()
            invariant
                0 <= i <= row.names@.len(),
                match best {
                    Option::Some(b) => last_candidate(row.names@.take(i as int))
                        == Option::Some(b@),
                    Option::None => last_candidate(row.names@.take(i as int)) is None,
                },
            decreases row.names@.len() - i,
        {
            proof {
                let taken = row.names@.take(i + 1);
                assert(taken.drop_last() =~= row.names@.take(i as int));
                assert(taken.last() == row.names@[i as int]);
            }
            match &row.names[i] {
                NameNode::Text(t) => {
                    let tr = trim(t.as_str());
                    if tr.as_str().unicode_len() > 0 {
                        best = Option::Some(tr);
                    }
                },
                NameNode::Link(t) => {
                    let tr = trim(t.as_str());
                    let trlen = tr.as_str().unicode_len();
                    if trlen > 0 && tr.as_str().get_char(0) != '(' && tr.as_str().get_char(
                        trlen - 1,
                    ) != ')' {
                        best = Option::Some(tr);
                    }
                },
            }
            i += 1;
        }
        proof {
            assert(row.names@.take(row.names@.len() as int) =~= row.names@);
        }
        let name: String = match best {
            Option::Some(b) => b,
            Option::None => {
                let digits = u64_to_string(idv);
                String::from_str("anonymous user #").concat(digits.as_str())
            },
        };

        Option::Some(
            Solution {
                timestamp: tsv + 21600,
                year,
                day,
                part,
                id: Identifier { name, numeric: idv, global_score: 0 },
                rank: Option::Some(rankv),
            },
        )
    }
}

} // verus!

use vstd::prelude::*;

verus! {

/// What the standard library's `str::trim` leaves of a string.  The result
/// depends on the characters alone.
pub uninterp spec fn trim_of(s: Seq<char>) -> Seq<char>;

/// Relies on `str::trim`: it removes leading and trailing Unicode
/// whitespace, as a pure function of the characters.
#[verifier::external_body]
pub fn trim(s: &str) -> (r: String)
    ensures
        r@ == trim_of(s@),
{
    s.trim().to_string()
}

/// The decimal digit characters of a value, most significant first.
pub open spec fn spec_u64_digits(n: u64) -> Seq<char>
    decreases n,
{
    if n < 10 {
        seq![digit_char(n as int)]
    } else {
        spec_u64_digits(n / 10).push(digit_char((n % 10) as int))
    }
}

/// The character for one decimal digit.
pub open spec fn digit_char(d: int) -> char {
    ((48 + d) as u8) as char
}

/// Relies on the standard library's decimal formatting of `u64`: the
/// digits of the value, most significant first, no sign and no leading
/// zeros.
#[verifier::external_body]
pub fn u64_to_string(n: u64) -> (r: String)
    ensures
        r@ == spec_u64_digits(n),
{
    let mut out = String::new();
    let formatted = format!("{}", n);
    out.push_str(&formatted);
    out
}

/// Whether the character is a decimal digit.
pub open spec fn is_digit_char(c: char) -> bool {
    48 <= c as int <= 57
}

/// Numeric value of a digit string (most significant first).
pub open spec fn chars_val(s: Seq<char>) -> int
    decreases s.len(),
{
    if s.len() == 0 {
        0
    } else {
        chars_val(s.drop_last()) * 10 + (s.last() as int - 48)
    }
}

/// All characters are decimal digits.
pub open spec fn all_digits(s: Seq<char>) -> bool {
    forall|i: int| 0 <= i < s.len() ==> is_digit_char(#[trigger] s[i])
}

/// What `str::parse::<u64>` accepts: an optional leading plus sign, then at
/// least one digit, the value fitting the type.
pub open spec fn parse_u64_spec(s: Seq<char>) -> Option<u64> {
    let body = if s.len() > 0 && s[0] == '+' {
        s.subrange(1, s.len() as int)
    } else {
        s
    };
    if body.len() > 0 && all_digits(body) && chars_val(body) <= u64::MAX as int {
        Option::Some(chars_val(body) as u64)
    } else {
        Option::None
    }
}

pub proof fn lemma_chars_val_nonneg(s: Seq<char>)
    requires
        all_digits(s),
    ensures
        chars_val(s) >= 0,
    decreases s.len(),
{
    if s.len() > 0 {
        assert(all_digits(s.drop_last())) by {
            assert(forall|i: int|
                0 <= i < s.len() - 1 ==> s.drop_last()[i] == #[trigger] s[i]);
        }
        lemma_chars_val_nonneg(s.drop_last());
    }
}

/// A digit string's value dominates the value of each of its prefixes.
pub proof fn lemma_chars_val_prefix(s: Seq<char>, k: int)
    requires
        all_digits(s),
        0 <= k <= s.len(),
    ensures
        chars_val(s.take(k)) <= chars_val(s),
    decreases s.len() - k,
{
    if k < s.len() {
        lemma_chars_val_prefix(s, k + 1);
        let p = s.take(k + 1);
        assert(p.drop_last() =~= s.take(k));
        assert(all_digits(s.take(k))) by {
            assert(forall|i: int| 0 <= i < k ==> s.take(k)[i] == #[trigger] s[i]);
        }
        lemma_chars_val_nonneg(s.take(k));
        assert(chars_val(p) == chars_val(s.take(k)) * 10 + (p.last() as int - 48));
        assert(chars_val(s.take(k)) * 10 >= chars_val(s.take(k)));
        assert(is_digit_char(s[k]));
    } else {
        assert(s.take(k) =~= s);
    }
}

/// Parse an unsigned decimal integer as `str::parse::<u64>` does: an
/// optional leading plus sign, then only digits, rejecting overflow.
pub fn parse_u64(s: &str) -> (r: Option<u64>)
    ensures
        r == parse_u64_spec(s@),
{
    let n = s.unicode_len();
    let start: usize = if n > 0 && s.get_char(0) == '+' {
        1
    } else {
        0
    };
    let ghost body = if start == 1 {
        s@.subrange(1, s@.len() as int)
    } else {
        s@
    };
    if n == start {
        return Option::None;
    }
    let mut acc: u64 = 0;
    let mut i: usize = start;
    while i < n
        invariant
            start <= i <= n == s@.len(),
            start == 0 || start == 1,
            start == 1 ==> s@.len() > 0 && s@[0] == '+',
            start == 0 ==> !(s@.len() > 0 && s@[0] == '+'),
            body == if start == 1 {
                s@.subrange(1, s@.len() as int)
            } else {
                s@
            },
            n > start,
            forall|j: int| start <= j < i ==> is_digit_char(#[trigger] s@[j]),
            acc == chars_val(s@.subrange(start as int, i as int)),
        decreases n - i,
    {
        let c = s.get_char(i);
        let cv = c as u32;
        if cv < 48 || cv > 57 {
            proof {
                assert(body[i - start] == s@[i as int]);
                assert(!is_digit_char(body[i - start]));
                assert(!all_digits(body));
            }
            return Option::None;
        }
        let d = (cv - 48) as u64;
        let wide: u128 = (acc as u128) * 10 + (d as u128);
        proof {
            let pfx = s@.subrange(start as int, i as int);
            let pfx1 = s@.subrange(start as int, i + 1);
            assert(pfx1.drop_last() =~= pfx);
            assert(chars_val(pfx1) == chars_val(pfx) * 10 + (s@[i as int] as int - 48));
        }
        if wide > u64::MAX as u128 {
            proof {
                let pfx1 = s@.subrange(start as int, i + 1);
                assert(chars_val(pfx1) > u64::MAX as int);
                if all_digits(body) {
                    assert(body.take(i + 1 - start) =~= pfx1);
                    lemma_chars_val_prefix(body, i + 1 - start);
                    assert(chars_val(body) > u64::MAX as int);
                }
            }
            return Option::None;
        }
        acc = wide as u64;
        i += 1;
    }
    proof {
        assert(s@.subrange(start as int, n as int) =~= body);
        assert(all_digits(body));
    }
    Option::Some(acc)
}

} // verus!

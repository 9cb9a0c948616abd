//! Input validators for the command line: log group names and the
//! transactions-per-second flag.
use vstd::prelude::*;

verus! {

/// A character the log service accepts in a log group name: letters,
/// digits, `_`, `/`, `.`, `#` and `-`.
pub open spec fn valid_name_char(c: char) -> bool {
    ||| ('a' as int) <= c as int <= ('z' as int)
    ||| ('A' as int) <= c as int <= ('Z' as int)
    ||| ('0' as int) <= c as int <= ('9' as int)
    ||| c == '_'
    ||| c == '/'
    ||| c == '.'
    ||| c == '#'
    ||| c == '-'
}

/// A valid log group name: 1 to 512 characters, all from the accepted
/// set.
pub open spec fn spec_valid_log_group_name(s: Seq<char>) -> bool {
    &&& 1 <= s.len() <= 512
    &&& forall|i: int| 0 <= i < s.len() ==> valid_name_char(#[trigger] s[i])
}

/// Check that a string is a valid log group name.
pub fn valid_cwl_log_group_name(log_group_name: &str) -> (r: bool)
    ensures
        r == spec_valid_log_group_name(log_group_name@),
{
    let n = log_group_name.unicode_len();
    if n < 1 || n > 512 {
        return false;
    }
    let mut i: usize = 0;
    while i < n
        invariant
            n == log_group_name@.len(),
            1 <= n <= 512,
            i <= n,
            forall|j: int| 0 <= j < i ==> valid_name_char(#[trigger] log_group_name@[j]),
        decreases n - i,
    {
        let c = log_group_name.get_char(i);
        let v = c as u32;
        let ok = (97 <= v && v <= 122) || (65 <= v && v <= 90) || (48 <= v && v <= 57) || c == '_'
            || c == '/' || c == '.' || c == '#' || c == '-';
        if !ok {
            return false;
        }
        i = i + 1;
    }
    true
}

/// Validate a log group name for the command line, with a message
/// naming the offending value.
pub fn clap_validate_cwl_log_group_name(log_group_name: &str) -> (r: Result<(), String>)
    ensures
        r is Ok <==> spec_valid_log_group_name(log_group_name@),
        r matches Err(m) ==> m@ == log_group_name@
            + " is not a valid CloudWatch Logs log group name"@,
{
    if valid_cwl_log_group_name(log_group_name) {
        Ok(())
    } else {
        let mut msg = String::from_str(log_group_name);
        msg.append(" is not a valid CloudWatch Logs log group name");
        Err(msg)
    }
}

pub open spec fn is_digit_char(c: char) -> bool {
    ('0' as int) <= c as int <= ('9' as int)
}

pub open spec fn digit_char_val(c: char) -> int {
    c as int - 48
}

/// Value of a digit string read in base ten.
pub open spec fn dec_value(s: Seq<char>) -> int
    decreases s.len(),
{
    if s.len() == 0 {
        0
    } else {
        dec_value(s.drop_last()) * 10 + digit_char_val(s.last())
    }
}

/// The digits of an optionally `+`-signed decimal string.
pub open spec fn uint_digits(s: Seq<char>) -> Seq<char> {
    if s.len() > 0 && s[0] == '+' {
        s.drop_first()
    } else {
        s
    }
}

/// The string reads as an unsigned decimal integer: std's `parse` for
/// an unsigned type accepts exactly an optional leading `+` followed by
/// one or more digits, with the value in range.
pub open spec fn parses_as_uint(s: Seq<char>) -> bool {
    &&& uint_digits(s).len() > 0
    &&& forall|i: int| 0 <= i < uint_digits(s).len() ==> is_digit_char(#[trigger] uint_digits(s)[i])
}

/// A valid transactions-per-second value: a positive integer that fits
/// the machine's word.
pub open spec fn spec_valid_tps(s: Seq<char>) -> bool {
    &&& parses_as_uint(s)
    &&& dec_value(uint_digits(s)) <= usize::MAX
    &&& dec_value(uint_digits(s)) != 0
}

proof fn lemma_dec_value_nonneg(s: Seq<char>)
    requires
        forall|i: int| 0 <= i < s.len() ==> is_digit_char(#[trigger] s[i]),
    ensures
        dec_value(s) >= 0,
    decreases s.len(),
{
    if s.len() > 0 {
        assert(forall|i: int|
            0 <= i < s.drop_last().len() ==> is_digit_char(#[trigger] s.drop_last()[i]));
        lemma_dec_value_nonneg(s.drop_last());
    }
}

/// Validate the transactions-per-second flag: any positive integer.
pub fn is_valid_tps(v: String) -> (r: Result<(), String>)
    ensures
        r is Ok <==> spec_valid_tps(v@),
        parses_as_uint(v@) && dec_value(uint_digits(v@)) <= usize::MAX && dec_value(
            uint_digits(v@),
        ) == 0 ==> (r matches Err(m) && m@
            == "Zero is not a valid transactions per second value"@),
        !(parses_as_uint(v@) && dec_value(uint_digits(v@)) <= usize::MAX) ==> (r matches Err(m)
            && m@ == v@ + " isn't a valid transactions per second value because not a positive integer"@),
{
    match parse_usize(v.as_str()) {
        Some(value) => {
            if value == 0 {
                Err(String::from_str("Zero is not a valid transactions per second value"))
            } else {
                Ok(())
            }
        },
        None => {
            let mut msg = v;
            msg.append(
                " isn't a valid transactions per second value because not a positive integer",
            );
            Err(msg)
        },
    }
}

/// Parse an optionally `+`-signed decimal string into a machine word,
/// as std's `parse::<usize>` would: `None` on malformed input and on
/// overflow.
fn parse_usize(s: &str) -> (r: Option<usize>)
    ensures
        match r {
            Some(value) => parses_as_uint(s@) && dec_value(uint_digits(s@)) == value,
            None => !(parses_as_uint(s@) && dec_value(uint_digits(s@)) <= usize::MAX),
        },
{
    let n = s.unicode_len();
    let start: usize = if n > 0 && s.get_char(0) == '+' {
        1
    } else {
        0
    };
    if n == start {
        return None;
    }
    let ghost digits = uint_digits(s@);
    proof {
        assert(digits =~= s@.subrange(start as int, n as int));
    }
    let mut acc: usize = 0;
    let mut i: usize = start;
    while i < n
        invariant
            n == s@.len(),
            start <= i <= n,
            start <= 1,
            digits == uint_digits(s@),
            digits =~= s@.subrange(start as int, n as int),
            forall|j: int| start <= j < i ==> is_digit_char(#[trigger] s@[j]),
            acc == dec_value(s@.subrange(start as int, i as int)),
        decreases n - i,
    {
        let c = s.get_char(i);
        let v = c as u32;
        if !(48 <= v && v <= 57) {
            proof {
                assert(digits[i - start] == s@[i as int]);
                assert(!is_digit_char(digits[i - start]));
            }
            return None;
        }
        let d = (v - 48) as usize;
        if acc > (usize::MAX - d) / 10 {
            proof {
                lemma_overflow_threshold(acc as int, d as int);
                if parses_as_uint(s@) {
                    let k = i - start + 1;
                    assert(digits.subrange(0, k).drop_last() =~= s@.subrange(
                        start as int,
                        i as int,
                    ));
                    assert(digits.subrange(0, k).last() == s@[i as int]);
                    lemma_dec_value_extend_bound(digits, k);
                }
            }
            return None;
        }
        proof {
            lemma_overflow_threshold(acc as int, d as int);
            assert(s@.subrange(start as int, i + 1 as int).drop_last() =~= s@.subrange(
                start as int,
                i as int,
            ));
        }
        acc = acc * 10 + d;
        i = i + 1;
    }
    proof {
        assert(s@.subrange(start as int, n as int) =~= digits);
    }
    Some(acc)
}

/// `acc * 10 + d` exceeds the machine word exactly when `acc` exceeds
/// the division threshold.
proof fn lemma_overflow_threshold(acc: int, d: int)
    requires
        0 <= acc,
        0 <= d <= 9,
    ensures
        acc > (usize::MAX - d) / 10 <==> acc * 10 + d > usize::MAX,
{
    let m = usize::MAX - d;
    vstd::arithmetic::div_mod::lemma_fundamental_div_mod(m, 10);
    vstd::arithmetic::div_mod::lemma_remainder_lower(m, 10);
    vstd::arithmetic::div_mod::lemma_remainder_upper(m, 10);
}

/// The value of a digit string is at least the value of any of its
/// prefixes (digit strings only grow as digits are appended).
proof fn lemma_dec_value_extend_bound(s: Seq<char>, k: int)
    requires
        1 <= k <= s.len(),
        forall|j: int| 0 <= j < s.len() ==> is_digit_char(#[trigger] s[j]),
    ensures
        dec_value(s) >= dec_value(s.subrange(0, k)),
    decreases s.len() - k,
{
    if k == s.len() {
        assert(s.subrange(0, k) =~= s);
    } else {
        lemma_dec_value_extend_bound(s, k + 1);
        let p1 = s.subrange(0, k + 1);
        assert(p1.drop_last() =~= s.subrange(0, k));
        assert(dec_value(p1) == dec_value(s.subrange(0, k)) * 10 + digit_char_val(s[k]));
        lemma_dec_value_nonneg_from(s, 0, k);
    }
}

proof fn lemma_dec_value_nonneg_from(s: Seq<char>, a: int, b: int)
    requires
        0 <= a <= b <= s.len(),
        forall|j: int| a <= j < b ==> is_digit_char(#[trigger] s[j]),
    ensures
        dec_value(s.subrange(a, b)) >= 0,
{
    let sub = s.subrange(a, b);
    assert(forall|i: int| 0 <= i < sub.len() ==> is_digit_char(#[trigger] sub[i]));
    lemma_dec_value_nonneg(sub);
}

} // verus!

//! Fixed-width decimal names ("2021", "02", "00-00") and the
//! lexicographic order the directory listings use.
use vstd::prelude::*;


verus! {

/// The decimal digit character for `d`.
pub open spec fn digit_char(d: int) -> char {
    if d == 0 {
        '0'
    } else if d == 1 {
        '1'
    } else if d == 2 {
        '2'
    } else if d == 3 {
        '3'
    } else if d == 4 {
        '4'
    } else if d == 5 {
        '5'
    } else if d == 6 {
        '6'
    } else if d == 7 {
        '7'
    } else if d == 8 {
        '8'
    } else {
        '9'
    }
}

pub open spec fn two_digits(n: int) -> Seq<char> {
    seq![digit_char(n / 10), digit_char(n % 10)]
}

pub open spec fn three_digits(n: int) -> Seq<char> {
    seq![digit_char(n / 100)] + two_digits(n % 100)
}

pub open spec fn four_digits(n: int) -> Seq<char> {
    seq![digit_char(n / 1000)] + three_digits(n % 1000)
}

/// Digit characters sit at code points 48 through 57, in digit order.
pub proof fn lemma_digit_char_value(d: int)
    requires
        0 <= d < 10,
    ensures
        digit_char(d) as int == 48 + d,
{
}

fn digit_str(d: i64) -> (r: &'static str)
    requires
        0 <= d < 10,
    ensures
        r@ =~= seq![digit_char(d as int)],
{
    if d == 0 {
        proof {
            reveal_strlit("0");
        }
        "0"
    } else if d == 1 {
        proof {
            reveal_strlit("1");
        }
        "1"
    } else if d == 2 {
        proof {
            reveal_strlit("2");
        }
        "2"
    } else if d == 3 {
        proof {
            reveal_strlit("3");
        }
        "3"
    } else if d == 4 {
        proof {
            reveal_strlit("4");
        }
        "4"
    } else if d == 5 {
        proof {
            reveal_strlit("5");
        }
        "5"
    } else if d == 6 {
        proof {
            reveal_strlit("6");
        }
        "6"
    } else if d == 7 {
        proof {
            reveal_strlit("7");
        }
        "7"
    } else if d == 8 {
        proof {
            reveal_strlit("8");
        }
        "8"
    } else {
        proof {
            reveal_strlit("9");
        }
        "9"
    }
}

/// Append `n` to `s` as exactly two decimal digits.
pub fn push_two_digits(s: &mut String, n: i64)
    requires
        0 <= n < 100,
    ensures
        final(s)@ == old(s)@ + two_digits(n as int),
{
    s.append(digit_str(n / 10));
    s.append(digit_str(n % 10));
    proof {
        assert(final(s)@ =~= old(s)@ + two_digits(n as int));
    }
}

/// Append `n` to `s` as exactly three decimal digits.
pub fn push_three_digits(s: &mut String, n: i64)
    requires
        0 <= n < 1000,
    ensures
        final(s)@ == old(s)@ + three_digits(n as int),
{
    s.append(digit_str(n / 100));
    push_two_digits(s, n % 100);
    proof {
        assert(final(s)@ =~= old(s)@ + three_digits(n as int));
    }
}

/// Append `n` to `s` as exactly four decimal digits.
pub fn push_four_digits(s: &mut String, n: i64)
    requires
        0 <= n < 10000,
    ensures
        final(s)@ == old(s)@ + four_digits(n as int),
{
    s.append(digit_str(n / 1000));
    push_three_digits(s, n % 1000);
    proof {
        assert(final(s)@ =~= old(s)@ + four_digits(n as int));
    }
}

/// The two-digit directory name for `n` (months, days).
pub fn two_digit_name(n: i64) -> (r: String)
    requires
        0 <= n < 100,
    ensures
        r@ == two_digits(n as int),
{
    let mut s = String::new();
    push_two_digits(&mut s, n);
    proof {
        assert(s@ =~= two_digits(n as int));
    }
    s
}

/// The four-digit directory name for `n` (years).
pub fn four_digit_name(n: i64) -> (r: String)
    requires
        0 <= n < 10000,
    ensures
        r@ == four_digits(n as int),
{
    let mut s = String::new();
    push_four_digits(&mut s, n);
    proof {
        assert(s@ =~= four_digits(n as int));
    }
    s
}

/// Strict lexicographic order on character sequences, by code point.
pub open spec fn lex_lt(a: Seq<char>, b: Seq<char>) -> bool
    decreases a.len(),
{
    if b.len() == 0 {
        false
    } else if a.len() == 0 {
        true
    } else if a[0] == b[0] {
        lex_lt(a.drop_first(), b.drop_first())
    } else {
        (a[0] as int) < (b[0] as int)
    }
}

pub proof fn lemma_lex_lt_irreflexive(a: Seq<char>)
    ensures
        !lex_lt(a, a),
    decreases a.len(),
{
    if a.len() > 0 {
        lemma_lex_lt_irreflexive(a.drop_first());
    }
}

pub proof fn lemma_lex_lt_transitive(a: Seq<char>, b: Seq<char>, c: Seq<char>)
    requires
        lex_lt(a, b),
        lex_lt(b, c),
    ensures
        lex_lt(a, c),
    decreases a.len(),
{
    if a.len() > 0 && b.len() > 0 && c.len() > 0 && a[0] == b[0] && b[0] == c[0] {
        lemma_lex_lt_transitive(a.drop_first(), b.drop_first(), c.drop_first());
    }
}

/// Any two character sequences are ordered or equal.
pub proof fn lemma_lex_lt_total(a: Seq<char>, b: Seq<char>)
    ensures
        lex_lt(a, b) || lex_lt(b, a) || a =~= b,
    decreases a.len(),
{
    if a.len() > 0 && b.len() > 0 && a[0] == b[0] {
        lemma_lex_lt_total(a.drop_first(), b.drop_first());
        if a.drop_first() =~= b.drop_first() {
            assert forall|i: int| 0 <= i < a.len() implies a[i] == b[i] by {
                if i > 0 {
                    assert(a[i] == a.drop_first()[i - 1]);
                    assert(b[i] == b.drop_first()[i - 1]);
                }
            }
            assert(a =~= b);
        }
    }
}

/// Ordering of equal-length sequences survives appending suffixes.
pub proof fn lemma_lex_lt_append(a: Seq<char>, b: Seq<char>, x: Seq<char>, y: Seq<char>)
    requires
        lex_lt(a, b),
        a.len() == b.len(),
    ensures
        lex_lt(a + x, b + y),
    decreases a.len(),
{
    assert(a.len() > 0);
    assert((a + x)[0] == a[0] && (b + y)[0] == b[0]);
    if a[0] == b[0] {
        lemma_lex_lt_append(a.drop_first(), b.drop_first(), x, y);
        assert((a + x).drop_first() =~= a.drop_first() + x);
        assert((b + y).drop_first() =~= b.drop_first() + y);
    }
}

/// Ordering of suffixes survives a shared prefix.
pub proof fn lemma_lex_lt_prefixed(p: Seq<char>, x: Seq<char>, y: Seq<char>)
    requires
        lex_lt(x, y),
    ensures
        lex_lt(p + x, p + y),
    decreases p.len(),
{
    if p.len() == 0 {
        assert(p + x =~= x);
        assert(p + y =~= y);
    } else {
        lemma_lex_lt_prefixed(p.drop_first(), x, y);
        assert((p + x)[0] == p[0] && (p + y)[0] == p[0]);
        assert((p + x).drop_first() =~= p.drop_first() + x);
        assert((p + y).drop_first() =~= p.drop_first() + y);
    }
}

/// Two-digit names order as their numbers do.
pub proof fn lemma_two_digits_order(n1: int, n2: int)
    requires
        0 <= n1 < n2 < 100,
    ensures
        lex_lt(two_digits(n1), two_digits(n2)),
{
    let a = two_digits(n1);
    let b = two_digits(n2);
    lemma_digit_char_value(n1 / 10);
    lemma_digit_char_value(n1 % 10);
    lemma_digit_char_value(n2 / 10);
    lemma_digit_char_value(n2 % 10);
    if n1 / 10 == n2 / 10 {
        assert(n1 % 10 < n2 % 10);
        assert(a[0] == b[0]);
        assert(a.drop_first() =~= seq![digit_char(n1 % 10)]);
        assert(b.drop_first() =~= seq![digit_char(n2 % 10)]);
        assert(lex_lt(a.drop_first(), b.drop_first()));
    } else {
        assert(n1 / 10 < n2 / 10);
        assert((a[0] as int) < (b[0] as int));
    }
}

/// Four-digit names order as their numbers do.
pub proof fn lemma_four_digits_order(n1: int, n2: int)
    requires
        0 <= n1 < n2 < 10000,
    ensures
        lex_lt(four_digits(n1), four_digits(n2)),
{
    let a = four_digits(n1);
    let b = four_digits(n2);
    lemma_digit_char_value(n1 / 1000);
    lemma_digit_char_value(n2 / 1000);
    lemma_digit_char_value((n1 % 1000) / 100);
    lemma_digit_char_value((n2 % 1000) / 100);
    if n1 / 1000 == n2 / 1000 {
        assert(n1 % 1000 < n2 % 1000);
        assert(a[0] == b[0]);
        assert(a.drop_first() =~= three_digits(n1 % 1000));
        assert(b.drop_first() =~= three_digits(n2 % 1000));
        let m1 = n1 % 1000;
        let m2 = n2 % 1000;
        if m1 / 100 == m2 / 100 {
            assert(m1 % 100 < m2 % 100);
            lemma_two_digits_order(m1 % 100, m2 % 100);
            assert(three_digits(m1).drop_first() =~= two_digits(m1 % 100));
            assert(three_digits(m2).drop_first() =~= two_digits(m2 % 100));
            assert(lex_lt(three_digits(m1), three_digits(m2)));
        } else {
            assert(m1 / 100 < m2 / 100);
            assert(lex_lt(three_digits(m1), three_digits(m2)));
        }
    } else {
        assert(n1 / 1000 < n2 / 1000);
        assert((a[0] as int) < (b[0] as int));
    }
}

/// Two-digit names of distinct numbers differ.
pub proof fn lemma_two_digits_distinct(n1: int, n2: int)
    requires
        0 <= n1 < 100,
        0 <= n2 < 100,
        n1 != n2,
    ensures
        two_digits(n1) != two_digits(n2),
{
    if n1 < n2 {
        lemma_two_digits_order(n1, n2);
        lemma_lex_lt_irreflexive(two_digits(n1));
    } else {
        lemma_two_digits_order(n2, n1);
        lemma_lex_lt_irreflexive(two_digits(n2));
    }
}

/// Four-digit names of distinct numbers differ.
pub proof fn lemma_four_digits_distinct(n1: int, n2: int)
    requires
        0 <= n1 < 10000,
        0 <= n2 < 10000,
        n1 != n2,
    ensures
        four_digits(n1) != four_digits(n2),
{
    if n1 < n2 {
        lemma_four_digits_order(n1, n2);
        lemma_lex_lt_irreflexive(four_digits(n1));
    } else {
        lemma_four_digits_order(n2, n1);
        lemma_lex_lt_irreflexive(four_digits(n2));
    }
}

/// Decide character-sequence equality of two string slices.
pub fn str_seq_eq(a: &str, b: &str) -> (r: bool)
    ensures
        r == (a@ == b@),
{
    proof {
        lemma_lex_lt_total(a@, b@);
        lemma_lex_lt_irreflexive(a@);
    }
    if str_lex_lt(a, b) {
        false
    } else if str_lex_lt(b, a) {
        false
    } else {
        true
    }
}

/// Skipping a shared prefix does not change the ordering.
pub proof fn lemma_lex_lt_skip(a: Seq<char>, b: Seq<char>, k: int)
    requires
        0 <= k <= a.len(),
        k <= b.len(),
        forall|j: int| 0 <= j < k ==> a[j] == b[j],
    ensures
        lex_lt(a, b) == lex_lt(a.skip(k), b.skip(k)),
    decreases k,
{
    if k == 0 {
        assert(a.skip(0) =~= a);
        assert(b.skip(0) =~= b);
    } else {
        assert(a.len() > 0 && b.len() > 0 && a[0] == b[0]);
        lemma_lex_lt_skip(a.drop_first(), b.drop_first(), k - 1);
        assert(a.drop_first().skip(k - 1) =~= a.skip(k));
        assert(b.drop_first().skip(k - 1) =~= b.skip(k));
    }
}

/// Decide `lex_lt(a@, b@)` on string slices. ASCII strings compare
/// byte by byte; others walk their characters.
pub fn str_lex_lt(a: &str, b: &str) -> (r: bool)
    ensures
        r == lex_lt(a@, b@),
{
    broadcast use vstd::string::is_ascii_spec_bytes;

    if a.is_ascii() && b.is_ascii() {
        let an = a.unicode_len();
        let bn = b.unicode_len();
        let mut i: usize = 0;
        while i < an && i < bn
            invariant
                a.is_ascii(),
                b.is_ascii(),
                an == a@.len(),
                bn == b@.len(),
                i <= an,
                i <= bn,
                forall|j: int| 0 <= j < i ==> a@[j] == b@[j],
            decreases an - i,
        {
            let ca = a.get_ascii(i);
            let cb = b.get_ascii(i);
            if ca != cb {
                proof {
                    lemma_lex_lt_skip(a@, b@, i as int);
                    assert(a@.skip(i as int)[0] == a@[i as int]);
                    assert(b@.skip(i as int)[0] == b@[i as int]);
                    assert('\0' <= a@[i as int] <= '\u{7f}');
                    assert('\0' <= b@[i as int] <= '\u{7f}');
                }
                return ca < cb;
            }
            i = i + 1;
        }
        proof {
            lemma_lex_lt_skip(a@, b@, i as int);
        }
        i >= an && i < bn
    } else {
        str_lex_lt_chars(a, b)
    }
}

/// Character-by-character ordering of string slices.
fn str_lex_lt_chars(a: &str, b: &str) -> (r: bool)
    ensures
        r == lex_lt(a@, b@),
    decreases a@.len(),
{
    let alen = a.unicode_len();
    let blen = b.unicode_len();
    if blen == 0 {
        false
    } else if alen == 0 {
        true
    } else {
        let ca = a.get_char(0);
        let cb = b.get_char(0);
        if ca == cb {
            proof {
                assert(a@.subrange(1, a@.len() as int) =~= a@.drop_first());
                assert(b@.subrange(1, b@.len() as int) =~= b@.drop_first());
            }
            str_lex_lt_chars(a.substring_char(1, alen), b.substring_char(1, blen))
        } else {
            (ca as u32) < (cb as u32)
        }
    }
}

} // verus!

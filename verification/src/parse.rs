//! Decimal text: parsing cells into 64-bit integers and rendering integers
//! back to text.

use vstd::prelude::*;

verus! {

/// Whether `c` is a decimal digit.
pub open spec fn is_digit(c: char) -> bool {
    48 <= c as u32 <= 57
}

/// The numeric value of a digit character.
pub open spec fn digit_val(c: char) -> int {
    (c as u32) - 48
}

/// All characters of `s` from position `j` on are decimal digits.
pub open spec fn all_digits_from(s: Seq<char>, j: int) -> bool {
    forall|k: int| j <= k < s.len() ==> is_digit(#[trigger] s[k])
}

/// The value of a (nonempty) string of decimal digits.
pub open spec fn digits_val(s: Seq<char>) -> int
    decreases s.len(),
{
    if s.len() == 0 {
        0
    } else {
        10 * digits_val(s.drop_last()) + digit_val(s.last())
    }
}

/// What parsing a piece of text as a decimal 64-bit integer yields: an
/// optional sign, then one or more digits, valuing within the `i64` range;
/// anything else is `None`.
pub open spec fn parsed_i64(s: Seq<char>) -> Option<i64> {
    let signed = s.len() > 0 && (s[0] == '+' || s[0] == '-');
    let body = if signed {
        s.subrange(1, s.len() as int)
    } else {
        s
    };
    if body.len() == 0 || !all_digits_from(body, 0) {
        None
    } else {
        let v = if s.len() > 0 && s[0] == '-' {
            -digits_val(body)
        } else {
            digits_val(body)
        };
        if i64::MIN <= v <= i64::MAX {
            Some(v as i64)
        } else {
            None
        }
    }
}

proof fn lemma_digits_val_nonneg(s: Seq<char>)
    requires
        all_digits_from(s, 0),
    ensures
        digits_val(s) >= 0,
    decreases s.len(),
{
    if s.len() > 0 {
        assert(is_digit(s[s.len() - 1]));
        assert(all_digits_from(s.drop_last(), 0));
        lemma_digits_val_nonneg(s.drop_last());
    }
}

/// Appending one more digit multiplies the value by ten and adds the digit.
proof fn lemma_digits_val_step(s: Seq<char>, j: int)
    requires
        0 <= j < s.len(),
    ensures
        digits_val(s.subrange(0, j + 1)) == 10 * digits_val(s.subrange(0, j)) + digit_val(s[j]),
{
    let t = s.subrange(0, j + 1);
    assert(t.drop_last() =~= s.subrange(0, j));
    assert(t.last() == s[j]);
}

/// With only digits behind position `j`, the whole string's value is at
/// least the prefix's value (which must be nonnegative).
proof fn lemma_digits_val_grows(s: Seq<char>, j: int)
    requires
        0 <= j <= s.len(),
        digits_val(s.subrange(0, j)) >= 0,
        all_digits_from(s, j),
    ensures
        digits_val(s) >= digits_val(s.subrange(0, j)),
        digits_val(s) >= 0,
    decreases s.len() - j,
{
    if j == s.len() {
        assert(s.subrange(0, j) =~= s);
    } else {
        lemma_digits_val_step(s, j);
        assert(is_digit(s[j]));
        lemma_digits_val_grows(s, j + 1);
    }
}

/// Parse a decimal 64-bit integer: an optional `+` or `-` sign followed by
/// one or more digits. Any other text, and any value outside the `i64`
/// range, gives `None`.
#[verifier::loop_isolation(false)]
#[verifier::rlimit(60)]
pub fn parse_i64(s: &str) -> (r: Option<i64>)
    ensures
        r == parsed_i64(s@),
{
    let n = s.unicode_len();
    if n == 0 {
        return None;
    }
    let first = s.get_char(0);
    let neg = first == '-';
    let signed = first == '-' || first == '+';
    let start: usize = if signed {
        1
    } else {
        0
    };
    let ghost body = if signed {
        s@.subrange(1, s@.len() as int)
    } else {
        s@
    };
    proof {
        if !signed {
            assert(s@.subrange(0, s@.len() as int) =~= s@);
        }
    }
    if start >= n {
        // a bare sign has no digits
        return None;
    }
    let mut acc: u64 = 0;
    let mut i = start;
    while i < n
        invariant
            start <= i <= n,
            forall|k: int| start <= k < i ==> is_digit(#[trigger] s@[k]),
            acc == digits_val(s@.subrange(start as int, i as int)),
            acc <= 9_223_372_036_854_775_809,
        decreases n - i,
    {
        let c = s.get_char(i);
        let cv = c as u32;
        if cv < 48 || cv > 57 {
            proof {
                assert(!is_digit(s@[i as int]));
                assert(s@[i as int] == body[i - start]);
            }
            return None;
        }
        let d = (cv - 48) as u64;
        proof {
            assert(s@.subrange(start as int, i as int)
                =~= s@.subrange(start as int, n as int).subrange(0, i - start));
            lemma_digits_val_step(s@.subrange(start as int, n as int), i - start);
            assert(s@.subrange(start as int, n as int).subrange(0, i - start + 1)
                =~= s@.subrange(start as int, i + 1));
            assert(s@.subrange(start as int, n as int)[i - start] == s@[i as int]);
        }
        if acc > 922_337_203_685_477_580 {
            // one more digit pushes the value past the i64 range, whatever
            // follows
            proof {
                let full = s@.subrange(start as int, n as int);
                assert(full =~= body);
                if all_digits_from(body, 0) {
                    lemma_digits_val_nonneg(s@.subrange(start as int, i + 1));
                    lemma_digits_val_grows(full, i - start + 1);
                    assert(digits_val(full.subrange(0, i - start + 1)) > 9_223_372_036_854_775_800)
                        by (nonlinear_arith)
                        requires
                            digits_val(full.subrange(0, i - start + 1)) == 10 * digits_val(
                                full.subrange(0, i - start),
                            ) + digit_val(full[i - start]) && digits_val(
                                full.subrange(0, i - start),
                            ) > 922_337_203_685_477_580 && digit_val(full[i - start]) >= 0,
                    ;
                }
            }
            return None;
        }
        acc = acc * 10 + d;
        i = i + 1;
    }
    proof {
        assert(s@.subrange(start as int, n as int) =~= body);
        assert(acc == digits_val(body));
        lemma_digits_val_nonneg(body);
    }
    if neg {
        if acc > 0x8000_0000_0000_0000u64 {
            None
        } else {
            Some((-(acc as i128)) as i64)
        }
    } else {
        if acc > 0x7fff_ffff_ffff_ffffu64 {
            None
        } else {
            Some(acc as i64)
        }
    }
}

/// The character for the digit `d`.
pub open spec fn digit_char(d: int) -> char {
    ((48 + d) as u8) as char
}

/// The decimal rendering of a nonnegative number.
pub open spec fn dec_digits(n: int) -> Seq<char>
    recommends
        n >= 0,
    decreases n,
{
    if n < 10 {
        seq![digit_char(n)]
    } else {
        dec_digits(n / 10).push(digit_char(n % 10))
    }
}

/// The decimal rendering of a 64-bit integer: plain digits, with a leading
/// `-` for negative values.
pub open spec fn dec_str_i64(v: int) -> Seq<char> {
    if v < 0 {
        seq!['-'].add(dec_digits(-v))
    } else {
        dec_digits(v)
    }
}

/// Relies on std's `Display` implementation for `i64`: it writes the plain
/// decimal digits of the value, preceded by `-` when it is negative.
#[verifier::external_body]
pub(crate) fn i64_to_string(v: i64) -> (s: String)
    ensures
        s@ == dec_str_i64(v as int),
{
    v.to_string()
}

} // verus!

//! Decimal text: parsing the numeric feed fields (track number, duration)
//! and rendering numbers into tag values.
use vstd::prelude::*;

verus! {

/// A decimal digit.
pub open spec fn is_digit(c: char) -> bool {
    '0' <= c && c <= '9'
}

/// Numeric value of a digit character.
pub open spec fn digit_val(c: char) -> int {
    c as int - '0' as int
}

/// Value of a string of digits, most significant first.
pub open spec fn dec_val(s: Seq<char>) -> int
    decreases s.len(),
{
    if s.len() == 0 {
        0
    } else {
        dec_val(s.drop_last()) * 10 + digit_val(s.last())
    }
}

/// Every character is a digit.
pub open spec fn all_digits(s: Seq<char>) -> bool {
    forall|i: int| 0 <= i < s.len() ==> is_digit(s[i])
}

/// The digits of a decimal spelling: everything after an optional plus sign.
pub open spec fn digits_part(s: Seq<char>) -> Seq<char> {
    if s.len() >= 1 && s[0] == '+' {
        s.subrange(1, s.len() as int)
    } else {
        s
    }
}

/// What `parse_u32` accepts: an optional leading plus sign, then at least
/// one digit, with a value that fits in 32 bits.
pub open spec fn spec_parse_u32(s: Seq<char>) -> Option<u32> {
    let digits = digits_part(s);
    if digits.len() >= 1 && all_digits(digits) && dec_val(digits) <= u32::MAX {
        Some(dec_val(digits) as u32)
    } else {
        None
    }
}

/// A digit string has a non-negative value.
pub proof fn lemma_dec_val_nonneg(s: Seq<char>)
    requires
        all_digits(s),
    ensures
        dec_val(s) >= 0,
    decreases s.len(),
{
    if s.len() > 0 {
        assert(all_digits(s.drop_last()));
        lemma_dec_val_nonneg(s.drop_last());
    }
}

/// Appending digits never lowers the value.
pub proof fn lemma_dec_val_extend(p: Seq<char>, rest: Seq<char>)
    requires
        all_digits(p),
        all_digits(rest),
    ensures
        dec_val(p + rest) >= dec_val(p),
    decreases rest.len(),
{
    if rest.len() == 0 {
        assert(p + rest =~= p);
    } else {
        let shorter = rest.drop_last();
        assert(all_digits(shorter));
        lemma_dec_val_extend(p, shorter);
        assert((p + rest).drop_last() =~= p + shorter);
        assert(all_digits(p + shorter));
        lemma_dec_val_nonneg(p + shorter);
        assert(dec_val(p + rest) == dec_val(p + shorter) * 10 + digit_val((p + rest).last()));
    }
}

/// Parses an unsigned decimal number, as the feed's numeric fields spell
/// them: `Some` exactly when the text is an optional plus sign, one or more
/// digits, and a value that fits.
pub fn parse_u32(s: &str) -> (r: Option<u32>)
    ensures
        r == spec_parse_u32(s@),
{
    let n = s.unicode_len();
    let mut start: usize = 0;
    if n >= 1 && s.get_char(0) == '+' {
        start = 1;
    }
    let ghost digits = digits_part(s@);
    proof {
        assert(digits =~= s@.subrange(start as int, n as int));
    }
    if start >= n {
        return None;
    }
    let mut acc: u32 = 0;
    let mut i: usize = start;
    proof {
        assert(s@.subrange(start as int, start as int).len() == 0);
    }
    while i < n
        invariant
            n == s@.len(),
            start <= i <= n,
            start < n,
            digits == digits_part(s@),
            digits == s@.subrange(start as int, n as int),
            all_digits(s@.subrange(start as int, i as int)),
            acc == dec_val(s@.subrange(start as int, i as int)),
        decreases n - i,
    {
        let ghost sofar = s@.subrange(start as int, i as int);
        let c = s.get_char(i);
        if c < '0' || c > '9' {
            proof {
                assert(digits[i - start] == s@[i as int]);
                assert(!all_digits(digits));
            }
            return None;
        }
        let d = (c as u32) - ('0' as u32);
        assert(d == digit_val(c));
        assert(d <= 9);
        if acc > (u32::MAX - d) / 10 {
            proof {
                let m = u32::MAX as int;
                assert(acc * 10 + d > m) by (nonlinear_arith)
                    requires
                        acc > (m - d) / 10,
                        0 <= d <= 9,
                        acc >= 0,
                        m == 0xffff_ffff,
                ;
                let next = s@.subrange(start as int, i + 1);
                assert(next.drop_last() =~= sofar);
                assert(next.last() == c);
                assert(dec_val(next) == acc * 10 + d);
                assert(all_digits(next));
                assert(digits =~= next + s@.subrange(i + 1, n as int));
                assert(all_digits(s@.subrange(i + 1, n as int)) ==> dec_val(digits) > u32::MAX)
                    by {
                    if all_digits(s@.subrange(i + 1, n as int)) {
                        lemma_dec_val_extend(next, s@.subrange(i + 1, n as int));
                    }
                }
                if !all_digits(s@.subrange(i + 1, n as int)) {
                    let tail = s@.subrange(i + 1, n as int);
                    let k = choose|k: int| 0 <= k < tail.len() && !is_digit(#[trigger] tail[k]);
                    assert(digits[i + 1 - start + k] == tail[k]);
                    assert(!all_digits(digits));
                }
            }
            return None;
        }
        let ghost next = s@.subrange(start as int, i + 1);
        proof {
            assert(next.drop_last() =~= sofar);
            assert(next.last() == c);
        }
        acc = acc * 10 + d;
        i = i + 1;
    }
    proof {
        assert(s@.subrange(start as int, i as int) =~= digits);
        lemma_dec_val_nonneg(digits);
    }
    Some(acc)
}

/// The character of a digit value.
pub open spec fn digit_char(d: int) -> char {
    if d == 0 {
        '0'
    } else if d == 1 {
        '1'
    } else if d == 2 {
        '2'
    } else if d == 3 {
        '3'
    } else if d == 4 {
        '4'
    } else if d == 5 {
        '5'
    } else if d == 6 {
        '6'
    } else if d == 7 {
        '7'
    } else if d == 8 {
        '8'
    } else {
        '9'
    }
}

/// Decimal spelling of a non-negative number, without leading zeros
/// (a single zero for zero itself).
pub open spec fn spec_digits(n: int) -> Seq<char>
    decreases n,
{
    if n <= 9 {
        seq![digit_char(n)]
    } else {
        spec_digits(n / 10).push(digit_char(n % 10))
    }
}

fn digit_str(d: u64) -> (r: &'static str)
    requires
        d <= 9,
    ensures
        r@ == seq![digit_char(d as int)],
{
    if d == 0 {
        proof {
            reveal_strlit("0");
            assert("0"@ =~= seq![digit_char(0)]);
        }
        "0"
    } else if d == 1 {
        proof {
            reveal_strlit("1");
            assert("1"@ =~= seq![digit_char(1)]);
        }
        "1"
    } else if d == 2 {
        proof {
            reveal_strlit("2");
            assert("2"@ =~= seq![digit_char(2)]);
        }
        "2"
    } else if d == 3 {
        proof {
            reveal_strlit("3");
            assert("3"@ =~= seq![digit_char(3)]);
        }
        "3"
    } else if d == 4 {
        proof {
            reveal_strlit("4");
            assert("4"@ =~= seq![digit_char(4)]);
        }
        "4"
    } else if d == 5 {
        proof {
            reveal_strlit("5");
            assert("5"@ =~= seq![digit_char(5)]);
        }
        "5"
    } else if d == 6 {
        proof {
            reveal_strlit("6");
            assert("6"@ =~= seq![digit_char(6)]);
        }
        "6"
    } else if d == 7 {
        proof {
            reveal_strlit("7");
            assert("7"@ =~= seq![digit_char(7)]);
        }
        "7"
    } else if d == 8 {
        proof {
            reveal_strlit("8");
            assert("8"@ =~= seq![digit_char(8)]);
        }
        "8"
    } else {
        proof {
            reveal_strlit("9");
            assert("9"@ =~= seq![digit_char(9)]);
        }
        "9"
    }
}

/// Renders a number in decimal, as `spec_digits` spells it.
pub fn u64_to_string(n: u64) -> (r: String)
    ensures
        r@ == spec_digits(n as int),
    decreases n,
{
    if n <= 9 {
        String::from_str(digit_str(n))
    } else {
        let mut s = u64_to_string(n / 10);
        let d = digit_str(n % 10);
        s.append(d);
        proof {
            assert(s@ =~= spec_digits((n / 10) as int).push(digit_char((n % 10) as int)));
        }
        s
    }
}

} // verus!

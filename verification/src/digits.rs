//! Decimal digit strings: the numeric value of a string of ASCII digits,
//! and rendering a number back to decimal text.

use vstd::prelude::*;

verus! {

/// `c` is an ASCII decimal digit; 48 and 57 are the code points of '0' and '9'.
pub open spec fn is_digit(c: char) -> bool {
    48 <= c as u32 && c as u32 <= 57
}

/// Every character of `s` is an ASCII decimal digit.
pub open spec fn all_digits(s: Seq<char>) -> bool {
    forall|i: int| 0 <= i < s.len() ==> is_digit(#[trigger] s[i])
}

/// Numeric value of a digit string, most significant digit first.
/// Leading zeros change nothing: `digits_val("007") == 7`.
pub open spec fn digits_val(s: Seq<char>) -> int
    decreases s.len(),
{
    if s.len() == 0 {
        0
    } else {
        digits_val(s.drop_last()) * 10 + (s.last() as u32 - 48)
    }
}

pub proof fn lemma_digits_val_nonneg(s: Seq<char>)
    requires
        all_digits(s),
    ensures
        digits_val(s) >= 0,
    decreases s.len(),
{
    if s.len() > 0 {
        assert forall|i: int| 0 <= i < s.drop_last().len() implies is_digit(
            #[trigger] s.drop_last()[i],
        ) by {
            assert(s.drop_last()[i] == s[i]);
        }
        lemma_digits_val_nonneg(s.drop_last());
        assert(is_digit(s.last()));
    }
}

/// The value of a digit string never shrinks as the string grows to the right.
pub proof fn lemma_digits_val_prefix_le(s: Seq<char>, j: int, k: int)
    requires
        all_digits(s),
        0 <= j <= k <= s.len(),
    ensures
        digits_val(s.subrange(0, j)) <= digits_val(s.subrange(0, k)),
    decreases k - j,
{
    if j < k {
        let p = s.subrange(0, j + 1);
        assert(p.drop_last() =~= s.subrange(0, j));
        assert(p.last() == s[j]);
        assert forall|i: int| 0 <= i < s.subrange(0, j).len() implies is_digit(
            #[trigger] s.subrange(0, j)[i],
        ) by {
            assert(s.subrange(0, j)[i] == s[i]);
        }
        lemma_digits_val_nonneg(s.subrange(0, j));
        assert(is_digit(s[j]));
        assert(digits_val(p) >= digits_val(s.subrange(0, j)));
        lemma_digits_val_prefix_le(s, j + 1, k);
    }
}

/// Parse a whole string of decimal digits into a `usize`.
/// `None` exactly when the string is empty, holds a non-digit character,
/// or its value does not fit in `usize`.
pub fn decimal_value(s: &str) -> (r: Option<usize>)
    ensures
        match r {
            Some(v) => s@.len() > 0 && all_digits(s@) && v as int == digits_val(s@),
            None => s@.len() == 0 || !all_digits(s@) || digits_val(s@) > usize::MAX,
        },
{
    let n = s.unicode_len();
    if n == 0 {
        return None;
    }
    let mut acc: usize = 0;
    let mut i: usize = 0;
    while i < n
        invariant
            0 <= i <= n,
            n == s@.len(),
            all_digits(s@.subrange(0, i as int)),
            acc as int == digits_val(s@.subrange(0, i as int)),
        decreases n - i,
    {
        let c = s.get_char(i);
        let u = c as u32;
        proof {
            assert(s@.subrange(0, i + 1).drop_last() =~= s@.subrange(0, i as int));
            assert(s@.subrange(0, i + 1).last() == s@[i as int]);
        }
        if u < 48 || u > 57 {
            assert(!is_digit(s@[i as int]));
            return None;
        }
        let d = (u - 48) as usize;
        let next = match acc.checked_mul(10) {
            Some(m) => m.checked_add(d),
            None => None,
        };
        match next {
            Some(v) => {
                acc = v;
            }
            None => {
                proof {
                    assert(digits_val(s@.subrange(0, i + 1)) > usize::MAX);
                    if all_digits(s@) {
                        lemma_digits_val_prefix_le(s@, i + 1, s@.len() as int);
                        assert(s@.subrange(0, s@.len() as int) =~= s@);
                    }
                }
                return None;
            }
        }
        assert forall|k: int| 0 <= k < s@.subrange(0, i + 1).len() implies is_digit(
            #[trigger] s@.subrange(0, i + 1)[k],
        ) by {
            assert(s@.subrange(0, i + 1)[k] == s@[k]);
            if k < i {
                assert(s@.subrange(0, i as int)[k] == s@[k]);
            }
        }
        i += 1;
    }
    proof {
        assert(s@.subrange(0, n as int) =~= s@);
    }
    Some(acc)
}

/// The decimal digit character for a value below ten.
pub open spec fn digit_char(d: int) -> char {
    if d == 0 {
        '0'
    } else if d == 1 {
        '1'
    } else if d == 2 {
        '2'
    } else if d == 3 {
        '3'
    } else if d == 4 {
        '4'
    } else if d == 5 {
        '5'
    } else if d == 6 {
        '6'
    } else if d == 7 {
        '7'
    } else if d == 8 {
        '8'
    } else {
        '9'
    }
}

/// The usual decimal rendering of `n`: no sign, no leading zeros
/// (except that zero itself renders as "0").
pub open spec fn dec_str(n: nat) -> Seq<char>
    decreases n,
{
    if n < 10 {
        seq![digit_char(n as int)]
    } else {
        dec_str(n / 10).push(digit_char((n % 10) as int))
    }
}

fn append_digit(out: &mut String, d: usize)
    requires
        d < 10,
    ensures
        final(out)@ == old(out)@.push(digit_char(d as int)),
{
    match d {
        0 => out.append("0"),
        1 => out.append("1"),
        2 => out.append("2"),
        3 => out.append("3"),
        4 => out.append("4"),
        5 => out.append("5"),
        6 => out.append("6"),
        7 => out.append("7"),
        8 => out.append("8"),
        _ => out.append("9"),
    }
    proof {
        reveal_strlit("0");
        reveal_strlit("1");
        reveal_strlit("2");
        reveal_strlit("3");
        reveal_strlit("4");
        reveal_strlit("5");
        reveal_strlit("6");
        reveal_strlit("7");
        reveal_strlit("8");
        reveal_strlit("9");
        assert(out@ =~= old(out)@.push(digit_char(d as int)));
    }
}

/// Append the decimal rendering of `n` to `out`.
pub fn append_decimal(out: &mut String, n: usize)
    ensures
        final(out)@ == old(out)@ + dec_str(n as nat),
    decreases n,
{
    if n >= 10 {
        append_decimal(out, n / 10);
        append_digit(out, n % 10);
        proof {
            assert(out@ =~= old(out)@ + dec_str(n as nat));
        }
    } else {
        append_digit(out, n);
        proof {
            assert(out@ =~= old(out)@ + dec_str(n as nat));
        }
    }
}

} // verus!

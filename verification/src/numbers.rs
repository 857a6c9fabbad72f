//! Parsing strictly positive integers from command-line text.

use crate::digits::{all_digits, decimal_value, digits_val};
use vstd::prelude::*;

verus! {

/// The digits of `s` once an optional single leading `+` is removed.
pub open spec fn unsigned_body(s: Seq<char>) -> Seq<char> {
    if s.len() > 0 && s[0] == '+' {
        s.drop_first()
    } else {
        s
    }
}

/// `s` parses as a strictly positive integer that fits in `usize`: an
/// optional `+`, then one or more decimal digits with a nonzero value.
pub open spec fn valid_positive(s: Seq<char>) -> bool {
    let b = unsigned_body(s);
    b.len() > 0 && all_digits(b) && 1 <= digits_val(b) && digits_val(b) <= usize::MAX
}

/// Parse a strictly positive integer, accepting an optional leading `+`
/// just as the standard library's integer parser does. Anything else —
/// empty text, a stray character, zero, an overflowing value — fails,
/// handing back the input text itself.
pub fn parse_positive_int(val: &str) -> (r: Result<usize, String>)
    ensures
        match r {
            Ok(n) => valid_positive(val@) && n as int == digits_val(unsigned_body(val@)),
            Err(e) => !valid_positive(val@) && e@ == val@,
        },
{
    let n = val.unicode_len();
    let parsed = if n > 0 && val.get_char(0) == '+' {
        let body = val.substring_char(1, n);
        proof {
            assert(body@ =~= val@.drop_first());
        }
        decimal_value(body)
    } else {
        decimal_value(val)
    };
    match parsed {
        Some(v) => {
            if v >= 1 {
                Ok(v)
            } else {
                Err(val.to_owned())
            }
        }
        None => Err(val.to_owned()),
    }
}

} // verus!

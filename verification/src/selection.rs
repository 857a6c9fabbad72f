//! The selection-list compiler: turns a textual selection specification
//! such as `"1,7,3-5"` into an ordered list of half-open, 0-based ranges.
//!
//! A specification is split on `,` into tokens (empty segments count as
//! tokens). A token is either a single 1-based position, written with
//! decimal digits only, or a dash range `<digits>-<digits>` whose first
//! bound must be strictly below its second. Output order mirrors input
//! order: nothing is merged, deduplicated or sorted.

use crate::digits::{all_digits, dec_str, decimal_value, digits_val, is_digit};
use core::ops::Range;
use vstd::prelude::*;
use vstd::string::StringExecFns;

verus! {

/// A list of half-open, 0-based selection intervals, in specification order.
pub type PositionList = Vec<Range<usize>>;

/// What a selection applies to, carrying the positions it selects.
#[derive(Debug)]
pub enum Extract {
    Fields(PositionList),
    Bytes(PositionList),
    Chars(PositionList),
}

/// Why a selection specification was rejected.
#[derive(Debug, PartialEq, Eq)]
pub enum SelectionError {
    /// A token that is neither a single position nor a well-formed range;
    /// carries the offending text verbatim.
    IllegalValue(String),
    /// A well-formed range whose first 1-based bound is not strictly below
    /// its second; carries both 1-based bounds.
    RangeOrder(usize, usize),
}

/// `s` is a valid single-position token: one or more decimal digits whose
/// value is strictly positive and fits in `usize`. Leading zeros are fine;
/// a sign is not.
pub open spec fn valid_index(s: Seq<char>) -> bool {
    s.len() > 0 && all_digits(s) && 1 <= digits_val(s) && digits_val(s) <= usize::MAX
}

/// Token `t` splits at position `i` into `<digits>-<digits>`, both sides
/// nonempty and the whole token consumed.
pub open spec fn dash_split_at(t: Seq<char>, i: int) -> bool {
    &&& 1 <= i
    &&& i + 2 <= t.len()
    &&& t[i] == '-'
    &&& all_digits(t.subrange(0, i))
    &&& all_digits(t.subrange(i + 1, t.len() as int))
}

/// `t` matches the anchored dash-range shape `<digits>-<digits>`.
pub open spec fn is_range_token(t: Seq<char>) -> bool {
    exists|i: int| dash_split_at(t, i)
}

/// The position of the dash of a range-shaped token.
pub open spec fn dash_pos(t: Seq<char>) -> int {
    choose|i: int| dash_split_at(t, i)
}

/// The digits before the dash of a range-shaped token.
pub open spec fn range_left(t: Seq<char>) -> Seq<char> {
    t.subrange(0, dash_pos(t))
}

/// The digits after the dash of a range-shaped token.
pub open spec fn range_right(t: Seq<char>) -> Seq<char> {
    t.subrange(dash_pos(t) + 1, t.len() as int)
}

/// A digit run contains no dash, so the dash position is unique.
proof fn lemma_dash_unique(t: Seq<char>, i: int, j: int)
    requires
        dash_split_at(t, i),
        dash_split_at(t, j),
    ensures
        i == j,
{
    if i < j {
        assert(t.subrange(0, j)[i] == t[i]);
        assert(is_digit(t.subrange(0, j)[i]));
        assert(false);
    }
    if j < i {
        assert(t.subrange(0, i)[j] == t[j]);
        assert(is_digit(t.subrange(0, i)[j]));
        assert(false);
    }
}

/// The token compiles: a valid single position, or a valid range with its
/// first value strictly below its second.
pub open spec fn token_ok(t: Seq<char>) -> bool {
    ||| valid_index(t)
    ||| (is_range_token(t) && valid_index(range_left(t)) && valid_index(range_right(t))
        && digits_val(range_left(t)) < digits_val(range_right(t)))
}

/// 0-based inclusive start of the interval a good token denotes.
pub open spec fn token_start(t: Seq<char>) -> int {
    if valid_index(t) {
        digits_val(t) - 1
    } else {
        digits_val(range_left(t)) - 1
    }
}

/// 0-based exclusive end of the interval a good token denotes.
pub open spec fn token_end(t: Seq<char>) -> int {
    if valid_index(t) {
        digits_val(t)
    } else {
        digits_val(range_right(t))
    }
}

/// The error a bad token produces. A token that does not match the range
/// shape reports itself whole; a range-shaped token with a bad bound
/// reports that bound alone; a mis-ordered range reports both 1-based
/// values.
pub open spec fn token_err(t: Seq<char>, e: SelectionError) -> bool {
    if !is_range_token(t) {
        e matches SelectionError::IllegalValue(x) && x@ == t
    } else if !valid_index(range_left(t)) {
        e matches SelectionError::IllegalValue(x) && x@ == range_left(t)
    } else if !valid_index(range_right(t)) {
        e matches SelectionError::IllegalValue(x) && x@ == range_right(t)
    } else {
        e matches SelectionError::RangeOrder(a, b) && a as int == digits_val(range_left(t))
            && b as int == digits_val(range_right(t))
    }
}

/// Parse a single-position token into its 0-based index.
/// Fails with the token itself exactly when the token is empty, holds any
/// non-digit (a sign included), is zero, or overflows `usize`.
pub fn parse_index(input: &str) -> (r: Result<usize, SelectionError>)
    ensures
        match r {
            Ok(n) => valid_index(input@) && n as int == digits_val(input@) - 1,
            Err(e) => !valid_index(input@) && (e matches SelectionError::IllegalValue(t) && t@
                == input@),
        },
{
    match decimal_value(input) {
        Some(v) => {
            if v >= 1 {
                Ok(v - 1)
            } else {
                Err(SelectionError::IllegalValue(input.to_owned()))
            }
        }
        None => Err(SelectionError::IllegalValue(input.to_owned())),
    }
}

/// Index of the first `-` in `s`, if any.
fn find_dash(s: &str) -> (r: Option<usize>)
    ensures
        match r {
            Some(i) => i < s@.len() && s@[i as int] == '-' && (forall|k: int|
                0 <= k < i ==> #[trigger] s@[k] != '-'),
            None => forall|k: int| 0 <= k < s@.len() ==> #[trigger] s@[k] != '-',
        },
{
    let n = s.unicode_len();
    let mut i: usize = 0;
    while i < n
        invariant
            i <= n,
            n == s@.len(),
            forall|k: int| 0 <= k < i ==> #[trigger] s@[k] != '-',
        decreases n - i,
    {
        if s.get_char(i) == '-' {
            return Some(i);
        }
        i += 1;
    }
    None
}

/// `s` is one or more decimal digits and nothing else.
fn is_all_digits(s: &str) -> (b: bool)
    ensures
        b == (s@.len() > 0 && all_digits(s@)),
{
    let n = s.unicode_len();
    if n == 0 {
        return false;
    }
    let mut i: usize = 0;
    while i < n
        invariant
            i <= n,
            n == s@.len(),
            forall|k: int| 0 <= k < i ==> is_digit(#[trigger] s@[k]),
        decreases n - i,
    {
        let u = s.get_char(i) as u32;
        if u < 48 || u > 57 {
            assert(!is_digit(s@[i as int]));
            return false;
        }
        i += 1;
    }
    true
}

/// Compile one token: first as a single position, otherwise as a dash
/// range; a token matching neither shape reports the single-position error
/// for the whole token.
fn token_to_range(token: &str) -> (r: Result<Range<usize>, SelectionError>)
    ensures
        match r {
            Ok(rg) => token_ok(token@) && rg.start as int == token_start(token@) && rg.end as int
                == token_end(token@),
            Err(e) => !token_ok(token@) && token_err(token@, e),
        },
{
    let whole = parse_index(token);
    match whole {
        Ok(n) => Ok(n..n + 1),
        Err(e) => {
            let n = token.unicode_len();
            match find_dash(token) {
                None => {
                    proof {
                        if is_range_token(token@) {
                            let i = dash_pos(token@);
                            assert(dash_split_at(token@, i));
                        }
                    }
                    Err(e)
                }
                Some(d) => {
                    if d == 0 || d + 1 >= n {
                        proof {
                            if is_range_token(token@) {
                                let j = dash_pos(token@);
                                assert(dash_split_at(token@, j));
                                if j < d {
                                    assert(token@[j] != '-');
                                }
                                if d < j {
                                    assert(token@.subrange(0, j)[d as int] == token@[d as int]);
                                    assert(is_digit(token@.subrange(0, j)[d as int]));
                                }
                                assert(j == d);
                                assert(false);
                            }
                        }
                        Err(e)
                    } else {
                        let left = token.substring_char(0, d);
                        let right = token.substring_char(d + 1, n);
                        let left_ok = is_all_digits(left);
                        let right_ok = is_all_digits(right);
                        if !left_ok || !right_ok {
                            proof {
                                if is_range_token(token@) {
                                    let j = dash_pos(token@);
                                    assert(dash_split_at(token@, j));
                                    if j < d {
                                        assert(token@[j] != '-');
                                    }
                                    if d < j {
                                        assert(token@.subrange(0, j)[d as int] == token@[d as int]);
                                        assert(is_digit(token@.subrange(0, j)[d as int]));
                                    }
                                    assert(j == d);
                                    assert(false);
                                }
                            }
                            Err(e)
                        } else {
                            proof {
                                assert(dash_split_at(token@, d as int));
                                if is_range_token(token@) {
                                    lemma_dash_unique(token@, dash_pos(token@), d as int);
                                }
                                assert(dash_pos(token@) == d as int);
                                assert(range_left(token@) == left@);
                                assert(range_right(token@) == right@);
                            }
                            match parse_index(left) {
                                Err(el) => Err(el),
                                Ok(n1) => match parse_index(right) {
                                    Err(er) => Err(er),
                                    Ok(n2) => {
                                        if n1 >= n2 {
                                            Err(SelectionError::RangeOrder(n1 + 1, n2 + 1))
                                        } else {
                                            Ok(n1..n2 + 1)
                                        }
                                    }
                                },
                            }
                        }
                    }
                }
            }
        }
    }
}

/// The comma-separated tokens of `s`, empty segments kept: splitting `""`
/// gives one empty token, and every `,` opens a new one.
pub open spec fn split_commas(s: Seq<char>) -> Seq<Seq<char>>
    decreases s.len(),
{
    if s.len() == 0 {
        seq![Seq::<char>::empty()]
    } else {
        let rest = split_commas(s.drop_last());
        if s.last() == ',' {
            rest.push(Seq::<char>::empty())
        } else {
            rest.update(rest.len() - 1, rest.last().push(s.last()))
        }
    }
}

pub proof fn lemma_split_commas_nonempty(s: Seq<char>)
    ensures
        split_commas(s).len() >= 1,
    decreases s.len(),
{
    if s.len() > 0 {
        lemma_split_commas_nonempty(s.drop_last());
    }
}

/// Every finished token of a prefix is a token of the whole string, in the
/// same position; only the prefix's last, still-open token may differ.
proof fn lemma_split_commas_prefix(s: Seq<char>, i: int)
    requires
        0 <= i <= s.len(),
    ensures
        split_commas(s.subrange(0, i)).len() <= split_commas(s).len(),
        forall|j: int|
            0 <= j < split_commas(s.subrange(0, i)).len() - 1 ==> split_commas(s)[j]
                == #[trigger] split_commas(s.subrange(0, i))[j],
    decreases s.len() - i,
{
    if i == s.len() {
        assert(s.subrange(0, i) =~= s);
    } else {
        lemma_split_commas_prefix(s, i + 1);
        let p = split_commas(s.subrange(0, i));
        let q = split_commas(s.subrange(0, i + 1));
        assert(s.subrange(0, i + 1).drop_last() =~= s.subrange(0, i));
        assert(s.subrange(0, i + 1).last() == s[i]);
        lemma_split_commas_nonempty(s.subrange(0, i));
        if s[i] == ',' {
            assert(q == p.push(Seq::<char>::empty()));
        } else {
            assert(q == p.update(p.len() - 1, p.last().push(s[i])));
        }
        assert forall|j: int| 0 <= j < p.len() - 1 implies split_commas(s)[j] == #[trigger] p[j] by {
            assert(q[j] == p[j]);
            assert(j < q.len() - 1);
            assert(split_commas(s)[j] == q[j]);
        }
    }
}

/// Index of the first token that does not compile; the token count when
/// every token does.
pub open spec fn first_bad(toks: Seq<Seq<char>>) -> int
    decreases toks.len(),
{
    if toks.len() == 0 {
        0
    } else if !token_ok(toks[0]) {
        0
    } else {
        1 + first_bad(toks.drop_first())
    }
}

proof fn lemma_first_bad(toks: Seq<Seq<char>>, j: int)
    requires
        0 <= j <= toks.len(),
        forall|k: int| 0 <= k < j ==> token_ok(#[trigger] toks[k]),
        j < toks.len() ==> !token_ok(toks[j]),
    ensures
        first_bad(toks) == j,
    decreases toks.len(),
{
    if toks.len() == 0 {
    } else if j == 0 {
    } else {
        assert(token_ok(toks[0]));
        let rest = toks.drop_first();
        assert forall|k: int| 0 <= k < j - 1 implies token_ok(#[trigger] rest[k]) by {
            assert(rest[k] == toks[k + 1]);
        }
        if j - 1 < rest.len() {
            assert(rest[j - 1] == toks[j]);
        }
        lemma_first_bad(rest, j - 1);
    }
}

/// Everything `parse_pos` promises, as a single predicate over the input's
/// characters and the outcome. On success there is one range per token, in
/// token order, each pinned by its token; on failure the error is the one
/// the first bad token produces, and later tokens are never consulted.
pub open spec fn parse_pos_post(s: Seq<char>, r: Result<Vec<Range<usize>>, SelectionError>) -> bool {
    let toks = split_commas(s);
    match r {
        Ok(v) => {
            &&& first_bad(toks) == toks.len()
            &&& forall|j: int| 0 <= j < toks.len() ==> token_ok(#[trigger] toks[j])
            &&& v@.len() == toks.len()
            &&& forall|j: int|
                0 <= j < toks.len() ==> (#[trigger] v@[j]).start as int == token_start(toks[j])
                    && v@[j].end as int == token_end(toks[j])
        },
        Err(e) => {
            &&& first_bad(toks) < toks.len()
            &&& token_err(toks[first_bad(toks)], e)
        },
    }
}

/// Compile a selection specification into its position list.
///
/// The specification is split on `,`; each token must be a strictly
/// positive decimal position or a `<digits>-<digits>` range with its first
/// value strictly below its second. Positions are 1-based in the input and
/// 0-based half-open in the output, which mirrors input order exactly. The
/// first bad token aborts the compilation with its error.
pub fn parse_pos(range: &str) -> (r: Result<PositionList, SelectionError>)
    ensures
        parse_pos_post(range@, r),
{
    let n = range.unicode_len();
    let mut out: Vec<Range<usize>> = Vec::new();
    let ghost mut done: Seq<Seq<char>> = Seq::empty();
    let mut start: usize = 0;
    let mut i: usize = 0;
    proof {
        assert(range@.subrange(0, 0) =~= Seq::<char>::empty());
        assert(split_commas(range@.subrange(0, 0)) == done.push(range@.subrange(0, 0)));
    }
    while i < n
        invariant
            0 <= start <= i <= n,
            n == range@.len(),
            split_commas(range@.subrange(0, i as int)) == done.push(
                range@.subrange(start as int, i as int),
            ),
            out@.len() == done.len(),
            forall|j: int| 0 <= j < done.len() ==> token_ok(#[trigger] done[j]),
            forall|j: int|
                0 <= j < done.len() ==> (#[trigger] out@[j]).start as int == token_start(done[j])
                    && out@[j].end as int == token_end(done[j]),
        decreases n - i,
    {
        let c = range.get_char(i);
        proof {
            assert(range@.subrange(0, i + 1).drop_last() =~= range@.subrange(0, i as int));
            assert(range@.subrange(0, i + 1).last() == range@[i as int]);
            lemma_split_commas_nonempty(range@.subrange(0, i as int));
        }
        if c == ',' {
            let tok = range.substring_char(start, i);
            match token_to_range(tok) {
                Ok(rg) => {
                    out.push(rg);
                    proof {
                        done = done.push(tok@);
                        assert(split_commas(range@.subrange(0, i + 1)) == split_commas(
                            range@.subrange(0, i as int),
                        ).push(Seq::<char>::empty()));
                        assert(range@.subrange(i + 1, i + 1) =~= Seq::<char>::empty());
                        assert(split_commas(range@.subrange(0, i + 1)) == done.push(
                            range@.subrange(i + 1, i + 1),
                        ));
                    }
                    start = i + 1;
                }
                Err(e) => {
                    proof {
                        let full = split_commas(range@);
                        let p = split_commas(range@.subrange(0, i + 1));
                        assert(p == done.push(tok@).push(Seq::<char>::empty()));
                        lemma_split_commas_prefix(range@, i + 1);
                        let b = done.len() as int;
                        assert(p[b] == tok@);
                        assert(full[b] == tok@);
                        assert forall|k: int| 0 <= k < b implies token_ok(#[trigger] full[k]) by {
                            assert(p[k] == done[k]);
                            assert(full[k] == p[k]);
                        }
                        lemma_first_bad(full, b);
                    }
                    return Err(e);
                }
            }
        } else {
            proof {
                let p = range@.subrange(0, i as int);
                let cur = range@.subrange(start as int, i as int);
                assert(split_commas(p).last() == cur);
                assert(split_commas(p).len() - 1 == done.len());
                assert(split_commas(range@.subrange(0, i + 1)) == split_commas(p).update(
                    split_commas(p).len() - 1,
                    cur.push(range@[i as int]),
                ));
                assert(split_commas(p).update(done.len() as int, cur.push(range@[i as int])) =~= done
                    .push(cur.push(range@[i as int])));
                assert(cur.push(range@[i as int]) =~= range@.subrange(start as int, i + 1));
            }
        }
        i += 1;
    }
    proof {
        assert(range@.subrange(0, n as int) =~= range@);
    }
    let tok = range.substring_char(start, n);
    match token_to_range(tok) {
        Ok(rg) => {
            out.push(rg);
            proof {
                done = done.push(tok@);
                assert(split_commas(range@) == done);
                lemma_first_bad(done, done.len() as int);
            }
            Ok(out)
        }
        Err(e) => {
            proof {
                let full = split_commas(range@);
                let b = done.len() as int;
                assert(full == done.push(tok@));
                assert(full[b] == tok@);
                assert forall|k: int| 0 <= k < b implies token_ok(#[trigger] full[k]) by {
                    assert(full[k] == done[k]);
                }
                lemma_first_bad(full, b);
            }
            Err(e)
        }
    }
}

/// The two errors agree in kind and in every datum they carry.
pub open spec fn err_equiv(e1: SelectionError, e2: SelectionError) -> bool {
    match (e1, e2) {
        (SelectionError::IllegalValue(x1), SelectionError::IllegalValue(x2)) => x1@ == x2@,
        (SelectionError::RangeOrder(a1, b1), SelectionError::RangeOrder(a2, b2)) => a1 == a2 && b1
            == b2,
        _ => false,
    }
}

/// Compiling the same specification twice yields the same outcome: the
/// compiler is deterministic. Any two results that satisfy `parse_pos`'s
/// contract on the same input succeed or fail together, successful range
/// lists are equal, and errors agree in kind, data, and printed message.
pub proof fn lemma_parse_pos_deterministic(
    s: Seq<char>,
    r1: Result<PositionList, SelectionError>,
    r2: Result<PositionList, SelectionError>,
)
    requires
        parse_pos_post(s, r1),
        parse_pos_post(s, r2),
    ensures
        r1 is Ok <==> r2 is Ok,
        r1 is Ok && r2 is Ok ==> r1->Ok_0@ == r2->Ok_0@,
        r1 is Err && r2 is Err ==> err_equiv(r1->Err_0, r2->Err_0) && message_view(r1->Err_0)
            == message_view(r2->Err_0),
{
    let toks = split_commas(s);
    match (r1, r2) {
        (Result::Ok(v1), Result::Ok(v2)) => {
            assert(v1@ =~= v2@);
        }
        (Result::Err(e1), Result::Err(e2)) => {
            let t = toks[first_bad(toks)];
            assert(token_err(t, e1) && token_err(t, e2));
        }
        _ => {}
    }
}

/// The view of the message each error prints.
pub open spec fn message_view(e: SelectionError) -> Seq<char> {
    match e {
        SelectionError::IllegalValue(t) => "illegal list value: \""@ + t@ + "\""@,
        SelectionError::RangeOrder(a, b) => "First number in range ("@ + dec_str(a as nat)
            + ") must be lower than second number ("@ + dec_str(b as nat) + ")"@,
    }
}

impl SelectionError {
    /// The diagnostic line for this error, exactly as the tools print it.
    pub fn message(&self) -> (r: String)
        ensures
            r@ == message_view(*self),
    {
        match self {
            SelectionError::IllegalValue(t) => {
                let mut s = String::new();
                s.append("illegal list value: \"");
                s.append(t.as_str());
                s.append("\"");
                proof {
                    assert(s@ =~= message_view(*self));
                }
                s
            }
            SelectionError::RangeOrder(a, b) => {
                let mut s = String::new();
                s.append("First number in range (");
                crate::digits::append_decimal(&mut s, *a);
                s.append(") must be lower than second number (");
                crate::digits::append_decimal(&mut s, *b);
                s.append(")");
                proof {
                    assert(s@ =~= message_view(*self));
                }
                s
            }
        }
    }
}

} // verus!

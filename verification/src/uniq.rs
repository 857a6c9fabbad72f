//! The decision core of duplicate-line suppression: consecutive lines are
//! grouped by equality after trailing white space is removed, and each
//! finished group is reported together with its repeat count.

use crate::whitespace::{is_space, is_space_char};
use vstd::prelude::*;

verus! {

/// `s` with its trailing white space removed.
pub open spec fn trimmed(s: Seq<char>) -> Seq<char>
    decreases s.len(),
{
    if s.len() > 0 && is_space(s.last()) {
        trimmed(s.drop_last())
    } else {
        s
    }
}

/// Number of characters of `s` left once trailing white space goes; the
/// kept characters are exactly the prefix of that length.
fn trimmed_len(s: &str) -> (k: usize)
    ensures
        k <= s@.len(),
        k as int == trimmed(s@).len(),
        trimmed(s@) == s@.subrange(0, k as int),
{
    let n = s.unicode_len();
    let mut k = n;
    proof {
        assert(s@.subrange(0, n as int) =~= s@);
    }
    while k > 0 && is_space_char(s.get_char(k - 1))
        invariant
            k <= n,
            n == s@.len(),
            trimmed(s@) == trimmed(s@.subrange(0, k as int)),
        decreases k,
    {
        proof {
            assert(s@.subrange(0, k as int).drop_last() =~= s@.subrange(0, k - 1));
            assert(s@.subrange(0, k as int).last() == s@[k - 1]);
        }
        k -= 1;
    }
    proof {
        if k > 0 {
            assert(s@.subrange(0, k as int).last() == s@[k - 1]);
        }
        assert(trimmed(s@.subrange(0, k as int)) == s@.subrange(0, k as int));
    }
    k
}

/// The two lines agree once trailing white space is ignored.
pub fn lines_match(a: &str, b: &str) -> (r: bool)
    ensures
        r == (trimmed(a@) == trimmed(b@)),
{
    let ka = trimmed_len(a);
    let kb = trimmed_len(b);
    if ka != kb {
        return false;
    }
    let mut j: usize = 0;
    while j < ka
        invariant
            j <= ka,
            ka == kb,
            ka <= a@.len(),
            kb <= b@.len(),
            ka as int == trimmed(a@).len(),
            kb as int == trimmed(b@).len(),
            trimmed(a@) == a@.subrange(0, ka as int),
            trimmed(b@) == b@.subrange(0, kb as int),
            forall|t: int| 0 <= t < j ==> a@[t] == b@[t],
        decreases ka - j,
    {
        if a.get_char(j) != b.get_char(j) {
            proof {
                assert(trimmed(a@)[j as int] == a@[j as int]);
                assert(trimmed(b@)[j as int] == b@[j as int]);
            }
            return false;
        }
        j += 1;
    }
    proof {
        assert forall|t: int| 0 <= t < ka implies trimmed(a@)[t] == trimmed(b@)[t] by {
            assert(a@[t] == b@[t]);
        }
        assert(trimmed(a@) =~= trimmed(b@));
    }
    true
}

/// The running state of duplicate suppression: the representative line of
/// the current group and how many lines it has absorbed so far.
pub struct UniqState {
    pub previous: String,
    pub count: u64,
}

impl UniqState {
    /// Before any line: an empty representative and a zero count, so the
    /// first differing line opens its group without reporting anything.
    pub fn new() -> (s: Self)
        ensures
            s.previous@ == Seq::<char>::empty(),
            s.count == 0,
    {
        UniqState { previous: String::new(), count: 0 }
    }

    /// Absorb the next line. A line equal to the representative — up to
    /// trailing white space — only lengthens the group. A differing line
    /// closes the group, which is reported with its count when any line
    /// was absorbed, and opens a new group around this line.
    pub fn observe(&mut self, line: String) -> (emit: Option<(u64, String)>)
        requires
            old(self).count < u64::MAX,
        ensures
            trimmed(line@) == trimmed(old(self).previous@) ==> final(self).previous@ == old(
                self,
            ).previous@ && final(self).count == old(self).count + 1 && emit is None,
            trimmed(line@) != trimmed(old(self).previous@) ==> {
                &&& final(self).previous@ == line@
                &&& final(self).count == 1
                &&& (old(self).count == 0 ==> emit is None)
                &&& (old(self).count > 0 ==> (emit matches Some(p) && p.0 == old(self).count
                    && p.1@ == old(self).previous@))
            },
    {
        if lines_match(line.as_str(), self.previous.as_str()) {
            self.count = self.count + 1;
            None
        } else {
            let emit = if self.count > 0 {
                Some((self.count, self.previous.clone()))
            } else {
                None
            };
            self.previous = line;
            self.count = 1;
            emit
        }
    }

    /// Close the final group: report it exactly when any line was absorbed.
    pub fn finish(self) -> (r: Option<(u64, String)>)
        ensures
            self.count == 0 ==> r is None,
            self.count > 0 ==> (r matches Some(p) && p.0 == self.count && p.1@ == self.previous@),
    {
        if self.count > 0 {
            Some((self.count, self.previous))
        } else {
            None
        }
    }
}

} // verus!

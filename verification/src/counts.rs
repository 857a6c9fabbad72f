//! Counting a text the way a word-count tool reports it: lines, words,
//! UTF-8 bytes and characters, plus the fixed-width column formatting of
//! the counters.

use crate::digits::{append_decimal, dec_str};
use crate::whitespace::{is_space, is_space_char};
use vstd::prelude::*;
use vstd::string::StringExecFns;

verus! {

/// The counts of one text: lines, words, bytes, characters.
#[derive(Debug, PartialEq, Eq)]
pub struct FileInfo {
    pub num_lines: usize,
    pub num_words: usize,
    pub num_bytes: usize,
    pub num_chars: usize,
}

/// Number of newline characters in `s`.
pub open spec fn newline_count(s: Seq<char>) -> int
    decreases s.len(),
{
    if s.len() == 0 {
        0
    } else {
        newline_count(s.drop_last()) + if s.last() == '\n' {
            1int
        } else {
            0int
        }
    }
}

/// Number of lines as a line-by-line reader sees them: every newline ends
/// a line, and a nonempty tail without a final newline still counts as
/// one more.
pub open spec fn line_count(s: Seq<char>) -> int {
    newline_count(s) + if s.len() > 0 && s.last() != '\n' {
        1int
    } else {
        0int
    }
}

pub proof fn lemma_newline_count_le(s: Seq<char>)
    ensures
        newline_count(s) <= s.len(),
        0 <= newline_count(s),
    decreases s.len(),
{
    if s.len() > 0 {
        lemma_newline_count_le(s.drop_last());
    }
}

/// A word starts at `i`: a non-space character that follows the start of
/// the text or a space.
pub open spec fn word_starts_at(s: Seq<char>, i: int) -> bool {
    0 <= i < s.len() && !is_space(s[i]) && (i == 0 || is_space(s[i - 1]))
}

/// Number of maximal runs of non-space characters in `s`.
pub open spec fn word_count(s: Seq<char>) -> int
    decreases s.len(),
{
    if s.len() == 0 {
        0
    } else {
        word_count(s.drop_last()) + if word_starts_at(s, s.len() - 1) {
            1int
        } else {
            0int
        }
    }
}

/// Length in bytes of the UTF-8 encoding of `c`.
pub open spec fn utf8_len(c: char) -> int {
    if (c as u32) < 0x80 {
        1
    } else if (c as u32) < 0x800 {
        2
    } else if (c as u32) < 0x10000 {
        3
    } else {
        4
    }
}

/// Length in bytes of the UTF-8 encoding of `s`.
pub open spec fn byte_count(s: Seq<char>) -> int
    decreases s.len(),
{
    if s.len() == 0 {
        0
    } else {
        byte_count(s.drop_last()) + utf8_len(s.last())
    }
}

/// Byte counts only grow as the text grows to the right.
pub proof fn lemma_byte_count_prefix_le(s: Seq<char>, i: int)
    requires
        0 <= i <= s.len(),
    ensures
        byte_count(s.subrange(0, i)) <= byte_count(s),
    decreases s.len() - i,
{
    if i == s.len() {
        assert(s.subrange(0, i) =~= s);
    } else {
        assert(s.subrange(0, i + 1).drop_last() =~= s.subrange(0, i));
        lemma_byte_count_prefix_le(s, i + 1);
    }
}

/// Count the lines, words, UTF-8 bytes and characters of a text in one
/// pass. The byte total of any real string fits in `usize`, which is all
/// the precondition asks.
pub fn count(text: &str) -> (info: FileInfo)
    requires
        byte_count(text@) <= usize::MAX,
    ensures
        info.num_lines == line_count(text@),
        info.num_words == word_count(text@),
        info.num_bytes == byte_count(text@),
        info.num_chars == text@.len(),
{
    let n = text.unicode_len();
    let mut newlines: usize = 0;
    let mut words: usize = 0;
    let mut bytes: usize = 0;
    let mut i: usize = 0;
    proof {
        assert(text@.subrange(0, 0) =~= Seq::<char>::empty());
    }
    while i < n
        invariant
            i <= n,
            n == text@.len(),
            byte_count(text@) <= usize::MAX,
            newlines as int == newline_count(text@.subrange(0, i as int)),
            newlines <= i,
            words as int == word_count(text@.subrange(0, i as int)),
            words <= i,
            bytes as int == byte_count(text@.subrange(0, i as int)),
        decreases n - i,
    {
        let c = text.get_char(i);
        proof {
            assert(text@.subrange(0, i + 1).drop_last() =~= text@.subrange(0, i as int));
            assert(text@.subrange(0, i + 1).last() == text@[i as int]);
            lemma_byte_count_prefix_le(text@, i + 1);
        }
        let u = c as u32;
        let cl: usize = if u < 0x80 {
            1
        } else if u < 0x800 {
            2
        } else if u < 0x10000 {
            3
        } else {
            4
        };
        bytes = bytes + cl;
        if c == '\n' {
            newlines = newlines + 1;
        }
        proof {
            assert(text@.subrange(0, i + 1)[i as int] == text@[i as int]);
            if i > 0 {
                assert(text@.subrange(0, i + 1)[i - 1] == text@[i - 1]);
            }
        }
        let sp = is_space_char(c);
        if !sp {
            let prev_space = if i == 0 {
                true
            } else {
                is_space_char(text.get_char(i - 1))
            };
            if prev_space {
                words = words + 1;
            }
        }
        i += 1;
    }
    proof {
        assert(text@.subrange(0, n as int) =~= text@);
    }
    let num_lines = if n > 0 && text.get_char(n - 1) != '\n' {
        proof {
            if n > 0 {
                lemma_newline_count_le(text@.drop_last());
            }
        }
        newlines + 1
    } else {
        newlines
    };
    FileInfo { num_lines, num_words: words, num_bytes: bytes, num_chars: i }
}

/// `k` space characters.
pub open spec fn spaces(k: nat) -> Seq<char>
    decreases k,
{
    if k == 0 {
        Seq::empty()
    } else {
        spaces((k - 1) as nat).push(' ')
    }
}

/// The decimal rendering of `n`, padded on the left with spaces to at
/// least `width` columns.
pub open spec fn right_aligned(n: nat, width: nat) -> Seq<char> {
    if dec_str(n).len() >= width {
        dec_str(n)
    } else {
        spaces((width - dec_str(n).len()) as nat) + dec_str(n)
    }
}

/// One output cell of the counting tool: the value right-aligned in eight
/// columns when its counter is shown, and nothing at all otherwise.
pub fn format_field(value: usize, show: bool) -> (r: String)
    ensures
        show ==> r@ == right_aligned(value as nat, 8),
        !show ==> r@ == Seq::<char>::empty(),
{
    if show {
        let mut rendered = String::new();
        append_decimal(&mut rendered, value);
        let dl = rendered.as_str().unicode_len();
        let mut s = String::new();
        let mut k: usize = dl;
        while k < 8
            invariant
                dl <= k,
                k <= 8 || k == dl,
                dl as int == dec_str(value as nat).len(),
                s@ == spaces((k - dl) as nat),
            decreases 8 - k,
        {
            s.append(" ");
            proof {
                reveal_strlit(" ");
                assert(s@ =~= spaces((k + 1 - dl) as nat));
            }
            k += 1;
        }
        s.append(rendered.as_str());
        proof {
            assert(s@ =~= right_aligned(value as nat, 8));
        }
        s
    } else {
        String::new()
    }
}

} // verus!
